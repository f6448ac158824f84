//! The tree-walking evaluator: statements against a chain of lexical
//! scopes, with a ghost big-step model.
//!
//! Every run is measured against `m_exec_block` and friends: pure
//! functions from a machine state model (scope store, output lines, the
//! session's clock reading) to the next state and outcome.  Execution is
//! bounded by a fuel budget large enough never to matter in practice; a
//! run that exhausts it reports an error instead of diverging.  The
//! session samples the clock once per run, so `clock()` is constant
//! within one program text.

use vstd::prelude::*;

verus! {

use vstd::string::StringExecFns;

use crate::environment::{
    EnvModel,
    Environment,
    env_view,
    missing_variable_chars,
    undefined_variable_chars,
    lemma_lookup_val_ok,
    lemma_ok_define,
    lemma_ok_assign,
    lemma_ok_push,
    lemma_ok_set_current,
};
use crate::expression::{Expression, all_exprs_wf, lemma_all_exprs_wf_index};
use crate::expression_literal_value::{
    FunKind,
    FunModel,
    LiteralValue,
    VModel,
    bool_value,
    compare_spec,
    minus_spec,
    not_impl_chars,
    plus_spec,
    res_view,
    slash_spec,
    star_spec,
    truthy_spec,
    val_eq_spec,
    val_ok,
    vchars,
    vkind_chars,
    vview,
    lemma_val_ok_grow,
};
use crate::statement::{Statement, all_stmts_wf, lemma_all_stmts_wf_index};
use crate::scanner::{TokModel, join_chars, m_scan, tok_view};
use crate::statement::stmts_view;
use crate::strutil::{chars_to_string, digits_of, u64_digits};
use crate::token::{Token, TokenType, kind_name_chars};

/// The evaluation budget: a bound on call depth and loop unrollings that
/// no practical program reaches.
pub const EVAL_BUDGET: u64 = 18_446_744_073_709_551_615;

/// A session: the scope store, the lines printed so far, and the clock
/// reading the session was started or last run with.
#[derive(Debug)]
pub struct Interpreter {
    pub environment: Environment,
    pub output: Vec<String>,
    pub clock: i64,
}

/// A statement outcome: fall through, or unwind with a return value.
#[derive(Debug)]
pub enum Flow {
    Normal,
    Returned(LiteralValue),
}

/// The ghost view of a statement outcome.
pub ghost enum FlowModel {
    Normal,
    Returned(VModel),
}

/// The ghost view of a session.
pub ghost struct StModel {
    pub env: EnvModel,
    pub out: Seq<Seq<char>>,
    pub clock: int,
}

/// The view of a session.
pub open spec fn st_view(i: Interpreter) -> StModel {
    StModel {
        env: env_view(i.environment),
        out: i.output@.map_values(|s: String| s@),
        clock: i.clock as int,
    }
}

/// The view of a statement outcome.
pub open spec fn flow_view(f: Flow) -> FlowModel {
    match f {
        Flow::Normal => FlowModel::Normal,
        Flow::Returned(v) => FlowModel::Returned(vview(v)),
    }
}

/// The view of a statement result.
pub open spec fn flow_res_view(r: Result<Flow, String>) -> Result<FlowModel, Seq<char>> {
    match r {
        Result::Ok(f) => Result::Ok(flow_view(f)),
        Result::Err(e) => Result::Err(e@),
    }
}

impl StModel {
    /// Validity of the session state.
    pub open spec fn ok(self) -> bool {
        self.env.ok()
    }
}

impl Interpreter {
    /// Validity of the session.
    pub open spec fn wf(&self) -> bool {
        st_view(*self).ok()
    }
}

/// The message for unary minus on a non-number.
pub open spec fn minus_not_impl_chars(v: VModel) -> Seq<char> {
    "Minus not implemented for "@ + vkind_chars(v)
}

/// The message for a unary operator that is neither minus nor bang.
pub open spec fn non_unary_chars(op: TokenType, v: VModel) -> Seq<char> {
    "Non unary operator "@ + kind_name_chars(op) + " is not implemented for "@ + vkind_chars(v)
}

/// The message for calling a value that is not callable.
pub open spec fn not_callable_chars(v: VModel) -> Seq<char> {
    "Cannot use "@ + vkind_chars(v) + " as callable"@
}

/// The message for calling with the wrong number of arguments.
pub open spec fn arity_chars(arity: nat, n: nat) -> Seq<char> {
    "Expected "@ + digits_of(arity) + " arguments but got "@ + digits_of(n) + "."@
}

/// The message reported when the evaluation budget runs out.
pub open spec fn budget_chars() -> Seq<char> {
    "Evaluation budget exhausted"@
}

/// The message for invoking a callable whose captured scope is missing
/// from the store; a store that satisfies its validity predicate never
/// produces one.
pub open spec fn stale_closure_chars() -> Seq<char> {
    "Callable closure is out of scope"@
}

/// The message for a return statement outside any function.
pub open spec fn toplevel_return_chars() -> Seq<char> {
    "Cannot return outside a function"@
}

/// What a unary operator yields.
pub open spec fn unary_spec(op: TokenType, v: VModel) -> Result<VModel, Seq<char>> {
    if op == TokenType::Minus {
        match v {
            VModel::Int(x) => Result::Ok(VModel::Int((0i64).wrapping_sub(x))),
            VModel::F(d) => Result::Ok(VModel::F(crate::dec::dec_neg_spec(d))),
            _ => Result::Err(minus_not_impl_chars(v)),
        }
    } else if op == TokenType::Bang {
        Result::Ok(bool_value(!truthy_spec(v)))
    } else {
        Result::Err(non_unary_chars(op, v))
    }
}

/// What a binary operator yields.
pub open spec fn binary_spec(op: TokenType, a: VModel, b: VModel) -> Result<VModel, Seq<char>> {
    match op {
        TokenType::Plus => plus_spec(a, b),
        TokenType::Minus => minus_spec(a, b),
        TokenType::Star => star_spec(a, b),
        TokenType::Slash => slash_spec(a, b),
        TokenType::Greater => compare_spec(op, a, b),
        TokenType::GreaterEqual => compare_spec(op, a, b),
        TokenType::Less => compare_spec(op, a, b),
        TokenType::LessEqual => compare_spec(op, a, b),
        TokenType::BangEqual => Result::Ok(bool_value(!val_eq_spec(a, b))),
        TokenType::EqualEqual => Result::Ok(bool_value(val_eq_spec(a, b))),
        _ => Result::Err(not_impl_chars(op, a, b)),
    }
}

/// The scope store after binding each parameter to its argument in the
/// innermost scope.
pub open spec fn m_bind(env: EnvModel, params: Seq<Seq<char>>, vals: Seq<VModel>, i: int) -> EnvModel
    decreases params.len() - i,
{
    if i < 0 || i >= params.len() || i >= vals.len() {
        env
    } else {
        m_bind(env.define_model(params[i], vals[i]), params, vals, i + 1)
    }
}

/// What evaluating an expression does to the session and yields.
pub open spec fn m_eval_expr(fuel: nat, e: Expression, st: StModel) -> (StModel, Result<
    VModel,
    Seq<char>,
>)
    decreases fuel, e, 0int,
{
    if fuel == 0 {
        (st, Result::Err(budget_chars()))
    } else {
        match e {
            Expression::Literal { value } => (st, Result::Ok(vview(value))),
            Expression::Grouping { group } => m_eval_expr(fuel, *group, st),
            Expression::Unary { operator, right } => {
                let (st1, r1) = m_eval_expr(fuel, *right, st);
                match r1 {
                    Result::Err(m) => (st1, Result::Err(m)),
                    Result::Ok(v) => (st1, unary_spec(operator.token_type, v)),
                }
            },
            Expression::Binary { left, operator, right } => {
                let (st1, r1) = m_eval_expr(fuel, *left, st);
                match r1 {
                    Result::Err(m) => (st1, Result::Err(m)),
                    Result::Ok(a) => {
                        let (st2, r2) = m_eval_expr(fuel, *right, st1);
                        match r2 {
                            Result::Err(m) => (st2, Result::Err(m)),
                            Result::Ok(b) => (st2, binary_spec(operator.token_type, a, b)),
                        }
                    },
                }
            },
            Expression::Variable { token } => (
                st,
                match st.env.lookup(st.env.current, token.lexeme@) {
                    Option::Some(v) => Result::Ok(v),
                    Option::None => Result::Err(undefined_variable_chars(token.lexeme@)),
                },
            ),
            Expression::Assign { name, value } => {
                let (st1, r1) = m_eval_expr(fuel, *value, st);
                match r1 {
                    Result::Err(m) => (st1, Result::Err(m)),
                    Result::Ok(v) => match st1.env.assign_frame(st1.env.current, name@) {
                        Option::Some(fi) => (
                            StModel { env: st1.env.assign_model(fi, name@, v), ..st1 },
                            Result::Ok(v),
                        ),
                        Option::None => (st1, Result::Err(missing_variable_chars(name@))),
                    },
                }
            },
            Expression::Logical { left, operator, right } => {
                let (st1, r1) = m_eval_expr(fuel, *left, st);
                match r1 {
                    Result::Err(m) => (st1, Result::Err(m)),
                    Result::Ok(l) => {
                        let keep = if operator.token_type == TokenType::Or {
                            truthy_spec(l)
                        } else {
                            !truthy_spec(l)
                        };
                        if keep {
                            (st1, Result::Ok(l))
                        } else {
                            m_eval_expr(fuel, *right, st1)
                        }
                    },
                }
            },
            Expression::Call { callee, arguments, line } => {
                let (st1, r1) = m_eval_expr(fuel, *callee, st);
                match r1 {
                    Result::Err(m) => (st1, Result::Err(m)),
                    Result::Ok(c) => {
                        let (st2, r2) = m_eval_args(fuel, arguments@, 0, st1);
                        match r2 {
                            Result::Err(m) => (st2, Result::Err(m)),
                            Result::Ok(vs) => m_call((fuel - 1) as nat, c, vs, st2),
                        }
                    },
                }
            },
        }
    }
}

/// What evaluating an argument list, left to right, does and yields.
pub open spec fn m_eval_args(fuel: nat, args: Seq<Expression>, i: int, st: StModel) -> (StModel, Result<
    Seq<VModel>,
    Seq<char>,
>)
    decreases fuel, args, args.len() - i,
{
    if i < 0 || i >= args.len() {
        (st, Result::Ok(Seq::empty()))
    } else {
        let (st1, r1) = m_eval_expr(fuel, args[i], st);
        match r1 {
            Result::Err(m) => (st1, Result::Err(m)),
            Result::Ok(v) => {
                let (st2, r2) = m_eval_args(fuel, args, i + 1, st1);
                match r2 {
                    Result::Err(m) => (st2, Result::Err(m)),
                    Result::Ok(rest) => (st2, Result::Ok(seq![v] + rest)),
                }
            },
        }
    }
}

/// What invoking a value as a callable does and yields: the clock builtin
/// reads the session's clock; a declared function runs its body in a
/// fresh scope under its captured one, and a return unwinds to here.
pub open spec fn m_call(fuel: nat, c: VModel, argvals: Seq<VModel>, st: StModel) -> (StModel, Result<
    VModel,
    Seq<char>,
>)
    decreases fuel, c, 0int,
{
    if fuel == 0 {
        (st, Result::Err(budget_chars()))
    } else {
        match c {
            VModel::Callable { name, arity, fun } => {
                if argvals.len() != arity {
                    (st, Result::Err(arity_chars(arity, argvals.len())))
                } else {
                    match fun {
                        FunModel::Clock => (st, Result::Ok(VModel::Int(st.clock as i64))),
                        FunModel::Declared { params, body, closure } => {
                            if closure >= st.env.frames.len() {
                                (st, Result::Err(stale_closure_chars()))
                            } else {
                                let saved = st.env.current;
                                let env1 = st.env.push_scope_model(closure as int);
                                let env2 = m_bind(env1, params, argvals, 0);
                                let st1 = StModel { env: env2, ..st };
                                let (st2, r2) = m_exec_block((fuel - 1) as nat, body, 0, st1);
                                let st3 = StModel { env: st2.env.set_current_model(saved), ..st2 };
                                match r2 {
                                    Result::Err(m) => (st3, Result::Err(m)),
                                    Result::Ok(FlowModel::Normal) => (st3, Result::Ok(VModel::Nil)),
                                    Result::Ok(FlowModel::Returned(v)) => (st3, Result::Ok(v)),
                                }
                            }
                        },
                    }
                }
            },
            _ => (st, Result::Err(not_callable_chars(c))),
        }
    }
}

/// What executing one statement does and yields.
pub open spec fn m_exec_stmt(fuel: nat, s: Statement, st: StModel) -> (StModel, Result<
    FlowModel,
    Seq<char>,
>)
    decreases fuel, s, 0int,
{
    if fuel == 0 {
        (st, Result::Err(budget_chars()))
    } else {
        match s {
            Statement::Expression { expression } => {
                let (st1, r1) = m_eval_expr(fuel, expression, st);
                match r1 {
                    Result::Err(m) => (st1, Result::Err(m)),
                    Result::Ok(_) => (st1, Result::Ok(FlowModel::Normal)),
                }
            },
            Statement::Print { expression } => {
                let (st1, r1) = m_eval_expr(fuel, expression, st);
                match r1 {
                    Result::Err(m) => (st1, Result::Err(m)),
                    Result::Ok(v) => (
                        StModel { out: st1.out.push(vchars(v)), ..st1 },
                        Result::Ok(FlowModel::Normal),
                    ),
                }
            },
            Statement::Variable { token, initializer } => {
                let (st1, r1) = m_eval_expr(fuel, initializer, st);
                match r1 {
                    Result::Err(m) => (st1, Result::Err(m)),
                    Result::Ok(v) => (
                        StModel { env: st1.env.define_model(token.lexeme@, v), ..st1 },
                        Result::Ok(FlowModel::Normal),
                    ),
                }
            },
            Statement::Block { statements } => {
                let saved = st.env.current;
                let st1 = StModel { env: st.env.push_scope_model(saved), ..st };
                let (st2, r2) = m_exec_block(fuel, statements@, 0, st1);
                let st3 = StModel { env: st2.env.set_current_model(saved), ..st2 };
                (st3, r2)
            },
            Statement::If { condition, then_branch, else_branch } => {
                let (st1, r1) = m_eval_expr(fuel, condition, st);
                match r1 {
                    Result::Err(m) => (st1, Result::Err(m)),
                    Result::Ok(c) => {
                        if truthy_spec(c) {
                            m_exec_stmt(fuel, *then_branch, st1)
                        } else {
                            match else_branch {
                                Option::Some(e) => m_exec_stmt(fuel, *e, st1),
                                Option::None => (st1, Result::Ok(FlowModel::Normal)),
                            }
                        }
                    },
                }
            },
            Statement::While { condition, body } => {
                let (st1, r1) = m_eval_expr(fuel, condition, st);
                match r1 {
                    Result::Err(m) => (st1, Result::Err(m)),
                    Result::Ok(c) => {
                        if !truthy_spec(c) {
                            (st1, Result::Ok(FlowModel::Normal))
                        } else {
                            let (st2, r2) = m_exec_stmt(fuel, *body, st1);
                            match r2 {
                                Result::Err(m) => (st2, Result::Err(m)),
                                Result::Ok(FlowModel::Returned(v)) => (
                                    st2,
                                    Result::Ok(FlowModel::Returned(v)),
                                ),
                                Result::Ok(FlowModel::Normal) => m_exec_stmt(
                                    (fuel - 1) as nat,
                                    s,
                                    st2,
                                ),
                            }
                        }
                    },
                }
            },
            Statement::Function { name, parameters, body } => {
                let v = VModel::Callable {
                    name: name.lexeme@,
                    arity: parameters@.len(),
                    fun: FunModel::Declared {
                        params: parameters@.map_values(|t: Token| t.lexeme@),
                        body: body@,
                        closure: st.env.current as nat,
                    },
                };
                (
                    StModel { env: st.env.define_model(name.lexeme@, v), ..st },
                    Result::Ok(FlowModel::Normal),
                )
            },
            Statement::Return { value } => {
                match value {
                    Option::Some(e) => {
                        let (st1, r1) = m_eval_expr(fuel, e, st);
                        match r1 {
                            Result::Err(m) => (st1, Result::Err(m)),
                            Result::Ok(v) => (st1, Result::Ok(FlowModel::Returned(v))),
                        }
                    },
                    Option::None => (st, Result::Ok(FlowModel::Returned(VModel::Nil))),
                }
            },
        }
    }
}

/// What executing a statement list, in order, does and yields.
pub open spec fn m_exec_block(fuel: nat, stmts: Seq<Statement>, i: int, st: StModel) -> (StModel, Result<
    FlowModel,
    Seq<char>,
>)
    decreases fuel, stmts, stmts.len() - i,
{
    if i < 0 || i >= stmts.len() {
        (st, Result::Ok(FlowModel::Normal))
    } else {
        let (st1, r1) = m_exec_stmt(fuel, stmts[i], st);
        match r1 {
            Result::Err(m) => (st1, Result::Err(m)),
            Result::Ok(FlowModel::Returned(v)) => (st1, Result::Ok(FlowModel::Returned(v))),
            Result::Ok(FlowModel::Normal) => m_exec_block(fuel, stmts, i + 1, st1),
        }
    }
}


/// Builds the budget message.
fn budget_message() -> (r: String)
    ensures
        r@ == budget_chars(),
{
    let mut s = String::new();
    s.append("Evaluation budget exhausted");
    s
}

/// Builds the top-level-return message.
fn toplevel_return_message() -> (r: String)
    ensures
        r@ == toplevel_return_chars(),
{
    let mut s = String::new();
    s.append("Cannot return outside a function");
    s
}

/// Builds the wrong-arity message.
fn arity_message(arity: usize, n: usize) -> (r: String)
    ensures
        r@ == arity_chars(arity as nat, n as nat),
{
    let mut s = String::new();
    s.append("Expected ");
    let a = u64_digits(arity as u64);
    let astr = chars_to_string(&a);
    s.append(astr.as_str());
    s.append(" arguments but got ");
    let b = u64_digits(n as u64);
    let bstr = chars_to_string(&b);
    s.append(bstr.as_str());
    s.append(".");
    proof {
        assert(s@ =~= arity_chars(arity as nat, n as nat));
    }
    s
}

/// Applies a unary operator.
fn unary_operation(op: TokenType, v: &LiteralValue) -> (r: Result<LiteralValue, String>)
    requires
        v.wf(),
    ensures
        res_view(r) == unary_spec(op, vview(*v)),
        r matches Result::Ok(out) ==> out.wf() && !(out matches LiteralValue::Callable { .. }),
{
    if op == TokenType::Minus {
        match v {
            LiteralValue::IntValue(x) => Result::Ok(LiteralValue::IntValue((0i64).wrapping_sub(*x))),
            LiteralValue::FValue(d) => Result::Ok(LiteralValue::FValue(d.neg())),
            _ => {
                let mut s = String::new();
                s.append("Minus not implemented for ");
                s.append(v.to_type());
                proof {
                    assert(s@ =~= minus_not_impl_chars(vview(*v)));
                }
                Result::Err(s)
            },
        }
    } else if op == TokenType::Bang {
        if v.truthy() {
            Result::Ok(LiteralValue::False)
        } else {
            Result::Ok(LiteralValue::True)
        }
    } else {
        let mut s = String::new();
        s.append("Non unary operator ");
        s.append(op.kind_name());
        s.append(" is not implemented for ");
        s.append(v.to_type());
        proof {
            assert(s@ =~= non_unary_chars(op, vview(*v)));
        }
        Result::Err(s)
    }
}

/// Every value a binary operator yields is well formed and not callable.
proof fn lemma_binary_ok(op: TokenType, a: VModel, b: VModel)
    requires
        val_ok(a, 0) || (a matches VModel::Callable { .. }),
        val_ok(b, 0) || (b matches VModel::Callable { .. }),
        (a matches VModel::F(d) ==> d.wf()),
        (b matches VModel::F(d) ==> d.wf()),
    ensures
        binary_spec(op, a, b) matches Result::Ok(v) ==> (match v {
            VModel::F(d) => d.wf(),
            VModel::Callable { .. } => false,
            _ => true,
        }),
{
    if binary_spec(op, a, b) is Ok {
        let v = binary_spec(op, a, b)->Ok_0;
        match (a, b) {
            (VModel::Int(x), VModel::F(d)) => {
                crate::dec::lemma_canon_wf(x as int, 0);
                lemma_dec_ops_wf(crate::expression_literal_value::dec_of_int(x), d);
            },
            (VModel::F(d), VModel::Int(y)) => {
                crate::dec::lemma_canon_wf(y as int, 0);
                lemma_dec_ops_wf(d, crate::expression_literal_value::dec_of_int(y));
            },
            (VModel::F(x), VModel::F(y)) => {
                lemma_dec_ops_wf(x, y);
            },
            _ => {},
        }
    }
}

/// Every decimal an arithmetic spec yields from canonical operands is
/// canonical.
proof fn lemma_dec_ops_wf(x: crate::dec::Dec, y: crate::dec::Dec)
    requires
        x.wf(),
        y.wf(),
    ensures
        crate::dec::dec_add_spec(x, y).wf(),
        crate::dec::dec_add_spec(x, crate::dec::dec_neg_spec(y)).wf(),
        crate::dec::dec_mul_spec(x, y).wf(),
        crate::dec::dec_div_spec(x, y).wf(),
{
    let ny = crate::dec::dec_neg_spec(y);
    assert(ny.wf()) by {
        crate::dec::lemma_neg_mod10(y.m as int);
    }
    lemma_dec_add_spec_wf(x, y);
    lemma_dec_add_spec_wf(x, ny);
    crate::dec::lemma_canon_wf(x.m * y.m, x.e + y.e);
    crate::dec::lemma_canon_wf(
        crate::dec::signed_of(
            (x.m < 0) != (y.m < 0),
            (vstd::math::abs(x.m as int) * crate::dec::pow10(19)) as nat / (vstd::math::abs(
                y.m as int,
            ) as nat),
        ),
        x.e - y.e - 19,
    );
}

/// The sum of two canonical decimals is canonical.
proof fn lemma_dec_add_spec_wf(x: crate::dec::Dec, y: crate::dec::Dec)
    requires
        x.wf(),
        y.wf(),
    ensures
        crate::dec::dec_add_spec(x, y).wf(),
{
    if x.m == 0 || y.m == 0 {
    } else {
        let emin = crate::dec::min_e(x, y);
        crate::dec::lemma_canon_wf(crate::dec::sum_at_min(x, y), emin);
    }
}

/// Applies a binary operator.
fn binary_operation(op: TokenType, a: &LiteralValue, b: &LiteralValue) -> (r: Result<
    LiteralValue,
    String,
>)
    requires
        a.wf(),
        b.wf(),
    ensures
        res_view(r) == binary_spec(op, vview(*a), vview(*b)),
        r matches Result::Ok(v) ==> v.wf() && !(v matches LiteralValue::Callable { .. }),
{
    let r = match op {
        TokenType::Plus => LiteralValue::process_plus_operator(a, b),
        TokenType::Minus => LiteralValue::process_minus_operator(a, b),
        TokenType::Star => LiteralValue::process_star_operator(a, b),
        TokenType::Slash => LiteralValue::process_slash_operator(a, b),
        TokenType::Greater => LiteralValue::process_comparison_operator(op, a, b),
        TokenType::GreaterEqual => LiteralValue::process_comparison_operator(op, a, b),
        TokenType::Less => LiteralValue::process_comparison_operator(op, a, b),
        TokenType::LessEqual => LiteralValue::process_comparison_operator(op, a, b),
        TokenType::BangEqual => {
            if a.values_equal(b) {
                Result::Ok(LiteralValue::False)
            } else {
                Result::Ok(LiteralValue::True)
            }
        },
        TokenType::EqualEqual => {
            if a.values_equal(b) {
                Result::Ok(LiteralValue::True)
            } else {
                Result::Ok(LiteralValue::False)
            }
        },
        _ => LiteralValue::not_implemented_error(op, a, b),
    };
    proof {
        lemma_binary_ok(op, vview(*a), vview(*b));
    }
    r
}

/// Evaluates one expression against the session.
#[verifier::loop_isolation(false)]
pub(crate) fn eval_expr(st: &mut Interpreter, e: &Expression, fuel: u64) -> (r: Result<
    LiteralValue,
    String,
>)
    requires
        old(st).wf(),
        e.wf(),
    ensures
        final(st).wf(),
        st_view(*final(st)) == m_eval_expr(fuel as nat, *e, st_view(*old(st))).0,
        res_view(r) == m_eval_expr(fuel as nat, *e, st_view(*old(st))).1,
        st_view(*final(st)).env.frames.len() >= st_view(*old(st)).env.frames.len(),
        r matches Result::Ok(v) ==> val_ok(vview(v), st_view(*final(st)).env.frames.len() as int),
    decreases fuel, *e, 0int,
{
    let ghost st0 = st_view(*st);
    if fuel == 0 {
        return Result::Err(budget_message());
    }
    match e {
        Expression::Literal { value } => Result::Ok(value.dup()),
        Expression::Grouping { group } => eval_expr(st, group, fuel),
        Expression::Unary { operator, right } => {
            let rr = eval_expr(st, right, fuel);
            match rr {
                Result::Err(m) => Result::Err(m),
                Result::Ok(v) => unary_operation(operator.token_type, &v),
            }
        },
        Expression::Binary { left, operator, right } => {
            let lr = eval_expr(st, left, fuel);
            match lr {
                Result::Err(m) => Result::Err(m),
                Result::Ok(a) => {
                    let rr = eval_expr(st, right, fuel);
                    match rr {
                        Result::Err(m) => Result::Err(m),
                        Result::Ok(b) => binary_operation(operator.token_type, &a, &b),
                    }
                },
            }
        },
        Expression::Variable { token } => {
            let got = st.environment.get(token.lexeme.as_str());
            proof {
                if st0.env.lookup(st0.env.current, token.lexeme@) is Some {
                    lemma_lookup_val_ok(st0.env, st0.env.current, token.lexeme@);
                }
            }
            got
        },
        Expression::Assign { name, value } => {
            let vr = eval_expr(st, value, fuel);
            match vr {
                Result::Err(m) => Result::Err(m),
                Result::Ok(v) => {
                    let ghost st1 = st_view(*st);
                    let ar = st.environment.assign(name.clone(), v.dup());
                    match ar {
                        Result::Ok(()) => {
                            proof {
                                let fi = st1.env.assign_frame(st1.env.current, name@)->Some_0;
                                lemma_ok_assign(st1.env, fi, name@, vview(v));
                            }
                            Result::Ok(v)
                        },
                        Result::Err(m) => Result::Err(m),
                    }
                },
            }
        },
        Expression::Logical { left, operator, right } => {
            let lr = eval_expr(st, left, fuel);
            match lr {
                Result::Err(m) => Result::Err(m),
                Result::Ok(l) => {
                    let keep = if operator.token_type == TokenType::Or {
                        l.truthy()
                    } else {
                        !l.truthy()
                    };
                    if keep {
                        Result::Ok(l)
                    } else {
                        eval_expr(st, right, fuel)
                    }
                },
            }
        },
        Expression::Call { callee, arguments, line } => {
            let cr = eval_expr(st, callee, fuel);
            match cr {
                Result::Err(m) => Result::Err(m),
                Result::Ok(c) => {
                    let ar = eval_args(st, arguments, fuel);
                    match ar {
                        Result::Err(m) => Result::Err(m),
                        Result::Ok(vs) => call_value(st, c, vs, fuel - 1),
                    }
                },
            }
        },
    }
}

/// Evaluates a call's arguments, left to right.
#[verifier::loop_isolation(false)]
pub(crate) fn eval_args(st: &mut Interpreter, args: &Vec<Expression>, fuel: u64) -> (r: Result<
    Vec<LiteralValue>,
    String,
>)
    requires
        old(st).wf(),
        all_exprs_wf(args@, 0),
    ensures
        final(st).wf(),
        st_view(*final(st)) == m_eval_args(fuel as nat, args@, 0, st_view(*old(st))).0,
        ({
            let mres = m_eval_args(fuel as nat, args@, 0, st_view(*old(st))).1;
            match r {
                Result::Ok(vs) => mres == Result::<Seq<VModel>, Seq<char>>::Ok(
                    vs@.map_values(|v: LiteralValue| vview(v)),
                ) && (forall|j: int|
                    0 <= j < vs@.len() ==> val_ok(
                        vview(#[trigger] vs@[j]),
                        st_view(*final(st)).env.frames.len() as int,
                    )),
                Result::Err(m) => mres == Result::<Seq<VModel>, Seq<char>>::Err(m@),
            }
        }),
        st_view(*final(st)).env.frames.len() >= st_view(*old(st)).env.frames.len(),
    decreases fuel, *args, 0int,
{
    let ghost st0 = st_view(*st);
    let mut out: Vec<LiteralValue> = Vec::new();
    let mut i: usize = 0;
    while i < args.len()
        invariant
            st.wf(),
            i <= args@.len(),
            st_view(*st).env.frames.len() >= st0.env.frames.len(),
            forall|j: int|
                0 <= j < out@.len() ==> val_ok(
                    vview(#[trigger] out@[j]),
                    st_view(*st).env.frames.len() as int,
                ),
            ({
                let full = m_eval_args(fuel as nat, args@, 0, st0);
                let rest = m_eval_args(fuel as nat, args@, i as int, st_view(*st));
                full.0 == rest.0 && (match rest.1 {
                    Result::Ok(restvs) => full.1 == Result::<Seq<VModel>, Seq<char>>::Ok(
                        out@.map_values(|v: LiteralValue| vview(v)) + restvs,
                    ),
                    Result::Err(m) => full.1 == Result::<Seq<VModel>, Seq<char>>::Err(m),
                })
            }),
        decreases args@.len() - i,
    {
        proof {
            vstd::std_specs::vec::axiom_vec_index_decreases(*args, i as int);
            lemma_all_exprs_wf_index(args@, 0, i as int);
        }
        let ghost st_i = st_view(*st);
        let a = &args[i];
        let vr = eval_expr(st, a, fuel);
        match vr {
            Result::Err(m) => {
                proof {
                    assert(m_eval_args(fuel as nat, args@, i as int, st_i).1 == Result::<
                        Seq<VModel>,
                        Seq<char>,
                    >::Err(m@));
                }
                return Result::Err(m);
            },
            Result::Ok(v) => {
                let ghost prev_out = out@;
                proof {
                    assert(forall|j: int|
                        0 <= j < out@.len() ==> val_ok(
                            vview(#[trigger] out@[j]),
                            st_view(*st).env.frames.len() as int,
                        )) by {
                        assert forall|j: int| 0 <= j < out@.len() implies val_ok(
                            vview(#[trigger] out@[j]),
                            st_view(*st).env.frames.len() as int,
                        ) by {
                            lemma_val_ok_grow(
                                vview(out@[j]),
                                st_i.env.frames.len() as int,
                                st_view(*st).env.frames.len() as int,
                            );
                        }
                    }
                }
                out.push(v);
                i = i + 1;
                proof {
                    assert(out@.map_values(|v2: LiteralValue| vview(v2)) =~= prev_out.map_values(
                        |v2: LiteralValue| vview(v2),
                    ) + seq![vview(v)]);
                    assert(prev_out.map_values(|v2: LiteralValue| vview(v2)) + (seq![vview(v)]
                        + (match m_eval_args(fuel as nat, args@, i as int, st_view(*st)).1 {
                        Result::Ok(restvs) => restvs,
                        Result::Err(_) => Seq::empty(),
                    })) =~= (prev_out.map_values(|v2: LiteralValue| vview(v2)) + seq![vview(v)])
                        + (match m_eval_args(fuel as nat, args@, i as int, st_view(*st)).1 {
                        Result::Ok(restvs) => restvs,
                        Result::Err(_) => Seq::empty(),
                    }));
                }
            },
        }
    }
    proof {
        assert(m_eval_args(fuel as nat, args@, i as int, st_view(*st)).1 == Result::<
            Seq<VModel>,
            Seq<char>,
        >::Ok(Seq::empty()));
        assert(out@.map_values(|v: LiteralValue| vview(v)) + Seq::<VModel>::empty()
            =~= out@.map_values(|v: LiteralValue| vview(v)));
    }
    Result::Ok(out)
}

/// Invokes a value as a callable.
#[verifier::loop_isolation(false)]
pub(crate) fn call_value(st: &mut Interpreter, callee: LiteralValue, args: Vec<LiteralValue>, fuel: u64) -> (r:
    Result<LiteralValue, String>)
    requires
        old(st).wf(),
        val_ok(vview(callee), st_view(*old(st)).env.frames.len() as int),
        forall|j: int|
            0 <= j < args@.len() ==> val_ok(
                vview(#[trigger] args@[j]),
                st_view(*old(st)).env.frames.len() as int,
            ),
    ensures
        final(st).wf(),
        st_view(*final(st)) == m_call(
            fuel as nat,
            vview(callee),
            args@.map_values(|v: LiteralValue| vview(v)),
            st_view(*old(st)),
        ).0,
        res_view(r) == m_call(
            fuel as nat,
            vview(callee),
            args@.map_values(|v: LiteralValue| vview(v)),
            st_view(*old(st)),
        ).1,
        st_view(*final(st)).env.frames.len() >= st_view(*old(st)).env.frames.len(),
        r matches Result::Ok(v) ==> val_ok(vview(v), st_view(*final(st)).env.frames.len() as int),
    decreases fuel, callee, 0int,
{
    let ghost st0 = st_view(*st);
    let ghost argvs = args@.map_values(|v: LiteralValue| vview(v));
    if fuel == 0 {
        return Result::Err(budget_message());
    }
    match callee {
        LiteralValue::Callable { name, arity, fun } => {
            if args.len() != arity {
                return Result::Err(arity_message(arity, args.len()));
            }
            match fun {
                FunKind::Clock => Result::Ok(LiteralValue::IntValue(st.clock)),
                FunKind::Declared { params, body, closure } => {
                    let saved = st.environment.current;
                    proof {
                        lemma_ok_push(st0.env, closure as int);
                    }
                    st.environment.push_scope(closure);
                    let ghost env1 = st0.env.push_scope_model(closure as int);
                    let ghost pview = params@.map_values(|p: String| p@);
                    let mut i: usize = 0;
                    while i < params.len() && i < args.len()
                        invariant
                            st.wf(),
                            i <= params@.len(),
                            st_view(*st).env.frames.len() == env1.frames.len(),
                            st_view(*st).env.current == env1.current,
                            st_view(*st).out == st0.out,
                            st_view(*st).clock == st0.clock,
                            m_bind(env1, pview, argvs, 0) == m_bind(
                                st_view(*st).env,
                                pview,
                                argvs,
                                i as int,
                            ),
                        decreases params@.len() - i,
                    {
                        let ghost env_i = st_view(*st).env;
                        proof {
                            lemma_val_ok_grow(
                                vview(args@[i as int]),
                                st0.env.frames.len() as int,
                                env_i.frames.len() as int,
                            );
                            lemma_ok_define(env_i, pview[i as int], argvs[i as int]);
                        }
                        st.environment.define(params[i].clone(), args[i].dup());
                        i = i + 1;
                        proof {
                            assert(m_bind(env_i, pview, argvs, i as int - 1) == m_bind(
                                env_i.define_model(pview[i as int - 1], argvs[i as int - 1]),
                                pview,
                                argvs,
                                i as int,
                            ));
                        }
                    }
                    proof {
                        assert(m_bind(st_view(*st).env, pview, argvs, i as int) == st_view(
                            *st,
                        ).env);
                    }
                    let fr = exec_block(st, &*body, fuel - 1);
                    let ghost st2 = st_view(*st);
                    proof {
                        lemma_ok_set_current(st2.env, saved as int);
                    }
                    st.environment.set_current(saved);
                    match fr {
                        Result::Err(m) => Result::Err(m),
                        Result::Ok(Flow::Normal) => Result::Ok(LiteralValue::Nil),
                        Result::Ok(Flow::Returned(v)) => Result::Ok(v),
                    }
                },
            }
        },
        other => {
            let mut s = String::new();
            s.append("Cannot use ");
            s.append(other.to_type());
            s.append(" as callable");
            proof {
                assert(s@ =~= not_callable_chars(vview(other)));
            }
            Result::Err(s)
        },
    }
}

/// Executes one statement against the session.
#[verifier::loop_isolation(false)]
pub(crate) fn exec_stmt(st: &mut Interpreter, s: &Statement, fuel: u64) -> (r: Result<Flow, String>)
    requires
        old(st).wf(),
        s.wf(),
    ensures
        final(st).wf(),
        st_view(*final(st)) == m_exec_stmt(fuel as nat, *s, st_view(*old(st))).0,
        flow_res_view(r) == m_exec_stmt(fuel as nat, *s, st_view(*old(st))).1,
        st_view(*final(st)).env.frames.len() >= st_view(*old(st)).env.frames.len(),
        r matches Result::Ok(Flow::Returned(v)) ==> val_ok(
            vview(v),
            st_view(*final(st)).env.frames.len() as int,
        ),
    decreases fuel, *s, 0int,
{
    let ghost st0 = st_view(*st);
    if fuel == 0 {
        return Result::Err(budget_message());
    }
    match s {
        Statement::Expression { expression } => {
            let r1 = eval_expr(st, expression, fuel);
            match r1 {
                Result::Err(m) => Result::Err(m),
                Result::Ok(_) => Result::Ok(Flow::Normal),
            }
        },
        Statement::Print { expression } => {
            let r1 = eval_expr(st, expression, fuel);
            match r1 {
                Result::Err(m) => Result::Err(m),
                Result::Ok(v) => {
                    let ghost before = st_view(*st);
                    let line = v.to_string();
                    st.output.push(line);
                    proof {
                        assert(st_view(*st).out =~= before.out.push(vchars(vview(v))));
                        assert(st_view(*st).env == before.env);
                    }
                    Result::Ok(Flow::Normal)
                },
            }
        },
        Statement::Variable { token, initializer } => {
            let r1 = eval_expr(st, initializer, fuel);
            match r1 {
                Result::Err(m) => Result::Err(m),
                Result::Ok(v) => {
                    let ghost before = st_view(*st);
                    proof {
                        lemma_ok_define(before.env, token.lexeme@, vview(v));
                    }
                    st.environment.define(token.lexeme.clone(), v);
                    Result::Ok(Flow::Normal)
                },
            }
        },
        Statement::Block { statements } => {
            let saved = st.environment.current;
            proof {
                lemma_ok_push(st0.env, saved as int);
            }
            st.environment.push_scope(saved);
            let r1 = exec_block(st, statements, fuel);
            let ghost st2 = st_view(*st);
            proof {
                lemma_ok_set_current(st2.env, saved as int);
            }
            st.environment.set_current(saved);
            r1
        },
        Statement::If { condition, then_branch, else_branch } => {
            let r1 = eval_expr(st, condition, fuel);
            match r1 {
                Result::Err(m) => Result::Err(m),
                Result::Ok(c) => {
                    if c.truthy() {
                        exec_stmt(st, then_branch, fuel)
                    } else {
                        match else_branch {
                            Option::Some(e) => exec_stmt(st, e, fuel),
                            Option::None => Result::Ok(Flow::Normal),
                        }
                    }
                },
            }
        },
        Statement::While { condition, body } => {
            let mut fuel_c = fuel;
            loop
                invariant
                    st.wf(),
                    fuel_c <= fuel,
                    fuel_c >= 1,
                    st_view(*st).env.frames.len() >= st0.env.frames.len(),
                    m_exec_stmt(fuel as nat, *s, st0) == m_exec_stmt(
                        fuel_c as nat,
                        *s,
                        st_view(*st),
                    ),
                decreases fuel_c,
            {
                let ghost st_i = st_view(*st);
                let r1 = eval_expr(st, condition, fuel_c);
                match r1 {
                    Result::Err(m) => {
                        return Result::Err(m);
                    },
                    Result::Ok(c) => {
                        if !c.truthy() {
                            return Result::Ok(Flow::Normal);
                        }
                        let r2 = exec_stmt(st, body, fuel_c);
                        match r2 {
                            Result::Err(m) => {
                                return Result::Err(m);
                            },
                            Result::Ok(Flow::Returned(v)) => {
                                return Result::Ok(Flow::Returned(v));
                            },
                            Result::Ok(Flow::Normal) => {
                                if fuel_c == 1 {
                                    proof {
                                        assert(m_exec_stmt(0nat, *s, st_view(*st)) == (
                                        st_view(*st),
                                        Result::<FlowModel, Seq<char>>::Err(budget_chars()),
                                        ));
                                    }
                                    return Result::Err(budget_message());
                                }
                                fuel_c = fuel_c - 1;
                            },
                        }
                    },
                }
            }
        },
        Statement::Function { name, parameters, body } => {
            let mut params: Vec<String> = Vec::new();
            let mut k: usize = 0;
            while k < parameters.len()
                invariant
                    k <= parameters@.len(),
                    params@.len() == k,
                    forall|j: int| 0 <= j < k ==> #[trigger] params@[j] == parameters@[j].lexeme,
                decreases parameters@.len() - k,
            {
                params.push(parameters[k].lexeme.clone());
                k = k + 1;
            }
            let val = LiteralValue::Callable {
                name: name.lexeme.clone(),
                arity: parameters.len(),
                fun: FunKind::Declared {
                    params,
                    body: crate::strutil::rc_dup(body),
                    closure: st.environment.current,
                },
            };
            proof {
                assert(vview(val) == (VModel::Callable {
                    name: name.lexeme@,
                    arity: parameters@.len(),
                    fun: FunModel::Declared {
                        params: parameters@.map_values(|t: Token| t.lexeme@),
                        body: body@,
                        closure: st0.env.current as nat,
                    },
                })) by {
                    assert((match val {
                        LiteralValue::Callable { fun: FunKind::Declared { params: p, .. }, .. } => p@.map_values(
                            |q: String| q@,
                        ),
                        _ => Seq::empty(),
                    }) =~= parameters@.map_values(|t: Token| t.lexeme@));
                }
                lemma_ok_define(st0.env, name.lexeme@, vview(val));
            }
            st.environment.define(name.lexeme.clone(), val);
            Result::Ok(Flow::Normal)
        },
        Statement::Return { value } => {
            match value {
                Option::Some(e) => {
                    let r1 = eval_expr(st, e, fuel);
                    match r1 {
                        Result::Err(m) => Result::Err(m),
                        Result::Ok(v) => Result::Ok(Flow::Returned(v)),
                    }
                },
                Option::None => Result::Ok(Flow::Returned(LiteralValue::Nil)),
            }
        },
    }
}

/// Executes a statement list, in order, until a return or an error.
#[verifier::loop_isolation(false)]
pub(crate) fn exec_block(st: &mut Interpreter, stmts: &Vec<Statement>, fuel: u64) -> (r: Result<
    Flow,
    String,
>)
    requires
        old(st).wf(),
        all_stmts_wf(stmts@, 0),
    ensures
        final(st).wf(),
        st_view(*final(st)) == m_exec_block(fuel as nat, stmts@, 0, st_view(*old(st))).0,
        flow_res_view(r) == m_exec_block(fuel as nat, stmts@, 0, st_view(*old(st))).1,
        st_view(*final(st)).env.frames.len() >= st_view(*old(st)).env.frames.len(),
        r matches Result::Ok(Flow::Returned(v)) ==> val_ok(
            vview(v),
            st_view(*final(st)).env.frames.len() as int,
        ),
    decreases fuel, *stmts, 0int,
{
    let ghost st0 = st_view(*st);
    let mut i: usize = 0;
    while i < stmts.len()
        invariant
            st.wf(),
            i <= stmts@.len(),
            st_view(*st).env.frames.len() >= st0.env.frames.len(),
            m_exec_block(fuel as nat, stmts@, 0, st0) == m_exec_block(
                fuel as nat,
                stmts@,
                i as int,
                st_view(*st),
            ),
        decreases stmts@.len() - i,
    {
        proof {
            vstd::std_specs::vec::axiom_vec_index_decreases(*stmts, i as int);
            lemma_all_stmts_wf_index(stmts@, 0, i as int);
        }
        let s = &stmts[i];
        let r1 = exec_stmt(st, s, fuel);
        match r1 {
            Result::Err(m) => {
                return Result::Err(m);
            },
            Result::Ok(Flow::Returned(v)) => {
                return Result::Ok(Flow::Returned(v));
            },
            Result::Ok(Flow::Normal) => {
                i = i + 1;
            },
        }
    }
    Result::Ok(Flow::Normal)
}


/// Relies on std::time::SystemTime::now and duration_since: the system
/// clock's seconds past the Unix epoch, zero when the clock reads
/// earlier, clamped into the signed range.  Nothing more is promised of
/// the outcome than its sign.
#[verifier::external_body]
fn now_seconds() -> (r: i64)
    ensures
        r >= 0,
{
    match std::time::SystemTime::now().duration_since(std::time::SystemTime::UNIX_EPOCH) {
        Ok(d) => {
            let s = d.as_secs();
            if s > i64::MAX as u64 {
                i64::MAX
            } else {
                s as i64
            }
        },
        Err(_) => 0,
    }
}

/// The view of the clock builtin.
pub open spec fn clock_builtin_model() -> VModel {
    VModel::Callable { name: "clock"@, arity: 0, fun: FunModel::Clock }
}

impl Interpreter {
    /// A fresh session: a global scope holding the clock builtin, no
    /// output, and the clock sampled now.
    pub fn new() -> (r: Interpreter)
        ensures
            r.wf(),
            st_view(r).out == Seq::<Seq<char>>::empty(),
            st_view(r).env.frames == seq![
                crate::environment::FrameModel {
                    names: seq!["clock"@],
                    vals: seq![clock_builtin_model()],
                    parent: Option::None,
                },
            ],
            st_view(r).env.current == 0,
            st_view(r).env.lookup(st_view(r).env.current, "clock"@) == Option::Some(
                clock_builtin_model(),
            ),
            st_view(r).clock >= 0,
    {
        let mut environment = Environment::new();
        let ghost base = env_view(environment);
        let mut cname = String::new();
        cname.append("clock");
        let mut vname = String::new();
        vname.append("clock");
        let builtin = LiteralValue::Callable { name: vname, arity: 0, fun: FunKind::Clock };
        proof {
            lemma_ok_define(base, cname@, vview(builtin));
            crate::environment::lemma_define_then_get(base, cname@, vview(builtin));
        }
        environment.define(cname, builtin);
        let clock = now_seconds();
        let r = Interpreter { environment, output: Vec::new(), clock };
        proof {
            assert(st_view(r).out =~= Seq::<Seq<char>>::empty());
            let m2 = base.define_model("clock"@, vview(builtin));
            assert(m2.frames[0].names =~= seq!["clock"@]);
            assert(m2.frames[0].vals =~= seq![clock_builtin_model()]);
            assert(m2.frames =~= seq![
                crate::environment::FrameModel {
                    names: seq!["clock"@],
                    vals: seq![clock_builtin_model()],
                    parent: Option::None,
                },
            ]);
        }
        r
    }

    /// Runs a statement list against the session: each statement in
    /// order, until the first error; a return at the top level is a
    /// runtime error.
    pub fn interpret_statements(&mut self, statements: Vec<Statement>) -> (r: Result<(), String>)
        requires
            old(self).wf(),
            all_stmts_wf(statements@, 0),
        ensures
            final(self).wf(),
            st_view(*final(self)) == m_exec_block(
                EVAL_BUDGET as nat,
                statements@,
                0,
                st_view(*old(self)),
            ).0,
            ({
                let mr = m_exec_block(EVAL_BUDGET as nat, statements@, 0, st_view(*old(self))).1;
                match r {
                    Result::Ok(()) => mr == Result::<FlowModel, Seq<char>>::Ok(FlowModel::Normal),
                    Result::Err(e) => mr matches Result::Err(me) && e@ == me || (mr matches
                    Result::Ok(FlowModel::Returned(_)) && e@ == toplevel_return_chars()),
                }
            }),
    {
        let fr = exec_block(self, &statements, EVAL_BUDGET);
        match fr {
            Result::Err(m) => Result::Err(m),
            Result::Ok(Flow::Normal) => Result::Ok(()),
            Result::Ok(Flow::Returned(_)) => Result::Err(toplevel_return_message()),
        }
    }
}

/// Short-circuit: the right operand of `or` is reached only when the left
/// is falsy, and of `and` only when the left is truthy; in the other case
/// the whole expression is exactly the left evaluation, state and all.
pub proof fn lemma_short_circuit(fuel: nat, e: Expression, st: StModel)
    requires
        fuel > 0,
        e matches Expression::Logical { .. },
    ensures
        ({
            match e {
                Expression::Logical { left, operator, right } => {
                    let (st1, r1) = m_eval_expr(fuel, *left, st);
                    let l = r1->Ok_0;
                    &&& (operator.token_type == TokenType::Or && r1 is Ok && truthy_spec(l)
                        ==> m_eval_expr(fuel, e, st) == (
                    st1,
                    Result::<VModel, Seq<char>>::Ok(l),
                    ))
                    &&& (operator.token_type == TokenType::Or && r1 is Ok && !truthy_spec(l)
                        ==> m_eval_expr(fuel, e, st) == m_eval_expr(fuel, *right, st1))
                    &&& (operator.token_type == TokenType::And && r1 is Ok && !truthy_spec(l)
                        ==> m_eval_expr(fuel, e, st) == (
                    st1,
                    Result::<VModel, Seq<char>>::Ok(l),
                    ))
                    &&& (operator.token_type == TokenType::And && r1 is Ok && truthy_spec(l)
                        ==> m_eval_expr(fuel, e, st) == m_eval_expr(fuel, *right, st1))
                },
                _ => true,
            }
        }),
{
}

/// An expression that neither assigns nor calls: evaluating it can change
/// nothing.
pub open spec fn pure_expr(e: Expression) -> bool
    decreases e, 0int,
{
    match e {
        Expression::Binary { left, operator, right } => pure_expr(*left) && pure_expr(*right),
        Expression::Logical { left, operator, right } => pure_expr(*left) && pure_expr(*right),
        Expression::Grouping { group } => pure_expr(*group),
        Expression::Literal { value } => true,
        Expression::Unary { operator, right } => pure_expr(*right),
        Expression::Variable { token } => true,
        Expression::Assign { name, value } => false,
        Expression::Call { .. } => false,
    }
}

/// An expression that mentions no variable at all.
pub open spec fn closed_expr(e: Expression) -> bool
    decreases e, 0int,
{
    match e {
        Expression::Binary { left, operator, right } => closed_expr(*left) && closed_expr(*right),
        Expression::Logical { left, operator, right } => closed_expr(*left) && closed_expr(*right),
        Expression::Grouping { group } => closed_expr(*group),
        Expression::Literal { value } => true,
        Expression::Unary { operator, right } => closed_expr(*right),
        Expression::Variable { token } => false,
        Expression::Assign { name, value } => false,
        Expression::Call { .. } => false,
    }
}

/// Evaluating a pure expression leaves the session unchanged.
pub proof fn lemma_pure_eval_state(fuel: nat, e: Expression, st: StModel)
    requires
        pure_expr(e),
    ensures
        m_eval_expr(fuel, e, st).0 == st,
    decreases fuel, e, 0int,
{
    if fuel > 0 {
        match e {
            Expression::Binary { left, operator, right } => {
                lemma_pure_eval_state(fuel, *left, st);
                let (st1, r1) = m_eval_expr(fuel, *left, st);
                if r1 is Ok {
                    lemma_pure_eval_state(fuel, *right, st1);
                }
            },
            Expression::Logical { left, operator, right } => {
                lemma_pure_eval_state(fuel, *left, st);
                let (st1, r1) = m_eval_expr(fuel, *left, st);
                if r1 is Ok {
                    lemma_pure_eval_state(fuel, *right, st1);
                }
            },
            Expression::Grouping { group } => {
                lemma_pure_eval_state(fuel, *group, st);
            },
            Expression::Unary { operator, right } => {
                lemma_pure_eval_state(fuel, *right, st);
            },
            _ => {},
        }
    }
}

/// A closed pure expression evaluates to the same outcome in any two
/// sessions, leaving each unchanged.
pub proof fn lemma_closed_eval_independent(fuel: nat, e: Expression, st: StModel, st2: StModel)
    requires
        closed_expr(e),
    ensures
        m_eval_expr(fuel, e, st).0 == st,
        m_eval_expr(fuel, e, st2).0 == st2,
        m_eval_expr(fuel, e, st).1 == m_eval_expr(fuel, e, st2).1,
    decreases fuel, e, 0int,
{
    if fuel > 0 {
        match e {
            Expression::Binary { left, operator, right } => {
                lemma_closed_eval_independent(fuel, *left, st, st2);
                lemma_closed_eval_independent(fuel, *right, st, st2);
            },
            Expression::Logical { left, operator, right } => {
                lemma_closed_eval_independent(fuel, *left, st, st2);
                lemma_closed_eval_independent(fuel, *right, st, st2);
            },
            Expression::Grouping { group } => {
                lemma_closed_eval_independent(fuel, *group, st, st2);
            },
            Expression::Unary { operator, right } => {
                lemma_closed_eval_independent(fuel, *right, st, st2);
            },
            _ => {},
        }
    }
}

/// Equality of a value with itself.
pub proof fn lemma_val_eq_refl(v: VModel)
    ensures
        val_eq_spec(v, v),
{
}

/// Declaring `var x = e;` and then evaluating `x == e` yields `true`, for
/// any closed expression `e` whose evaluation succeeds: its evaluation is
/// deterministic, touches nothing, and the variable holds exactly its
/// value.  (An `e` that reads `x` itself can see the new binding and
/// evaluate differently; such inputs are left out.)
pub proof fn lemma_var_then_self_equal(fuel: nat, e: Expression, x: Token, st: StModel, v: VModel)
    requires
        st.ok(),
        closed_expr(e),
        fuel > 0,
        m_eval_expr(fuel, e, st) == (st, Result::<VModel, Seq<char>>::Ok(v)),
    ensures
        ({
            let st1 = StModel { env: st.env.define_model(x.lexeme@, v), ..st };
            let looked = st1.env.lookup(st1.env.current, x.lexeme@);
            &&& looked == Option::Some(v)
            &&& (m_eval_expr(fuel, e, st1).1 == Result::<VModel, Seq<char>>::Ok(v))
            &&& val_eq_spec(looked->Some_0, m_eval_expr(fuel, e, st1).1->Ok_0)
        }),
{
    let st1 = StModel { env: st.env.define_model(x.lexeme@, v), ..st };
    crate::environment::lemma_define_then_get(st.env, x.lexeme@, v);
    lemma_closed_eval_independent(fuel, e, st, st1);
    lemma_val_eq_refl(v);
}


/// Calling a value that is not a callable fails with the non-callable
/// error, whatever the arguments and the state.
pub proof fn lemma_call_non_callable(fuel: nat, c: VModel, args: Seq<VModel>, st: StModel)
    requires
        fuel > 0,
        !(c matches VModel::Callable { .. }),
    ensures
        m_call(fuel, c, args, st) == (st, Result::<VModel, Seq<char>>::Err(not_callable_chars(c))),
{
}

/// Evaluating an expression never changes the session's clock.
proof fn lemma_clock_expr(fuel: nat, e: Expression, st: StModel)
    ensures
        m_eval_expr(fuel, e, st).0.clock == st.clock,
    decreases fuel, e, 0int,
{
    if fuel > 0 {
        match e {
            Expression::Grouping { group } => {
                lemma_clock_expr(fuel, *group, st);
            },
            Expression::Unary { operator, right } => {
                lemma_clock_expr(fuel, *right, st);
            },
            Expression::Binary { left, operator, right } => {
                lemma_clock_expr(fuel, *left, st);
                let (st1, r1) = m_eval_expr(fuel, *left, st);
                if r1 is Ok {
                    lemma_clock_expr(fuel, *right, st1);
                }
            },
            Expression::Assign { name, value } => {
                lemma_clock_expr(fuel, *value, st);
            },
            Expression::Logical { left, operator, right } => {
                lemma_clock_expr(fuel, *left, st);
                let (st1, r1) = m_eval_expr(fuel, *left, st);
                if r1 is Ok {
                    lemma_clock_expr(fuel, *right, st1);
                }
            },
            Expression::Call { callee, arguments, line } => {
                lemma_clock_expr(fuel, *callee, st);
                let (st1, r1) = m_eval_expr(fuel, *callee, st);
                if r1 is Ok {
                    lemma_clock_args(fuel, arguments@, 0, st1);
                    let (st2, r2) = m_eval_args(fuel, arguments@, 0, st1);
                    if r2 is Ok {
                        lemma_clock_call((fuel - 1) as nat, r1->Ok_0, r2->Ok_0, st2);
                    }
                }
            },
            _ => {},
        }
    }
}

/// Evaluating an argument list never changes the session's clock.
proof fn lemma_clock_args(fuel: nat, args: Seq<Expression>, i: int, st: StModel)
    ensures
        m_eval_args(fuel, args, i, st).0.clock == st.clock,
    decreases fuel, args, args.len() - i,
{
    if 0 <= i < args.len() {
        lemma_clock_expr(fuel, args[i], st);
        let (st1, r1) = m_eval_expr(fuel, args[i], st);
        if r1 is Ok {
            lemma_clock_args(fuel, args, i + 1, st1);
        }
    }
}

/// Invoking a callable never changes the session's clock.
proof fn lemma_clock_call(fuel: nat, c: VModel, argvals: Seq<VModel>, st: StModel)
    ensures
        m_call(fuel, c, argvals, st).0.clock == st.clock,
    decreases fuel, c, 0int,
{
    if fuel > 0 {
        match c {
            VModel::Callable { name, arity, fun } => {
                if argvals.len() == arity {
                    match fun {
                        FunModel::Declared { params, body, closure } => {
                            if closure < st.env.frames.len() {
                                let env1 = st.env.push_scope_model(closure as int);
                                let env2 = m_bind(env1, params, argvals, 0);
                                let st1 = StModel { env: env2, ..st };
                                lemma_clock_block((fuel - 1) as nat, body, 0, st1);
                            }
                        },
                        FunModel::Clock => {},
                    }
                }
            },
            _ => {},
        }
    }
}

/// Executing a statement never changes the session's clock.
proof fn lemma_clock_stmt(fuel: nat, s: Statement, st: StModel)
    ensures
        m_exec_stmt(fuel, s, st).0.clock == st.clock,
    decreases fuel, s, 0int,
{
    if fuel > 0 {
        match s {
            Statement::Expression { expression } => {
                lemma_clock_expr(fuel, expression, st);
            },
            Statement::Print { expression } => {
                lemma_clock_expr(fuel, expression, st);
            },
            Statement::Variable { token, initializer } => {
                lemma_clock_expr(fuel, initializer, st);
            },
            Statement::Block { statements } => {
                let st1 = StModel { env: st.env.push_scope_model(st.env.current), ..st };
                lemma_clock_block(fuel, statements@, 0, st1);
            },
            Statement::If { condition, then_branch, else_branch } => {
                lemma_clock_expr(fuel, condition, st);
                let (st1, r1) = m_eval_expr(fuel, condition, st);
                if r1 is Ok {
                    if truthy_spec(r1->Ok_0) {
                        lemma_clock_stmt(fuel, *then_branch, st1);
                    } else {
                        match else_branch {
                            Option::Some(e) => {
                                lemma_clock_stmt(fuel, *e, st1);
                            },
                            Option::None => {},
                        }
                    }
                }
            },
            Statement::While { condition, body } => {
                lemma_clock_expr(fuel, condition, st);
                let (st1, r1) = m_eval_expr(fuel, condition, st);
                if r1 is Ok && truthy_spec(r1->Ok_0) {
                    lemma_clock_stmt(fuel, *body, st1);
                    let (st2, r2) = m_exec_stmt(fuel, *body, st1);
                    if r2 == Result::<FlowModel, Seq<char>>::Ok(FlowModel::Normal) {
                        lemma_clock_stmt((fuel - 1) as nat, s, st2);
                    }
                }
            },
            Statement::Return { value } => {
                match value {
                    Option::Some(e) => {
                        lemma_clock_expr(fuel, e, st);
                    },
                    Option::None => {},
                }
            },
            _ => {},
        }
    }
}

/// Executing a statement list never changes the session's clock.
proof fn lemma_clock_block(fuel: nat, stmts: Seq<Statement>, i: int, st: StModel)
    ensures
        m_exec_block(fuel, stmts, i, st).0.clock == st.clock,
    decreases fuel, stmts, stmts.len() - i,
{
    if 0 <= i < stmts.len() {
        lemma_clock_stmt(fuel, stmts[i], st);
        let (st1, r1) = m_exec_stmt(fuel, stmts[i], st);
        if r1 == Result::<FlowModel, Seq<char>>::Ok(FlowModel::Normal) {
            lemma_clock_block(fuel, stmts, i + 1, st1);
        }
    }
}

/// The view of a unit result.
pub open spec fn unit_res_view(r: Result<(), String>) -> Result<(), Seq<char>> {
    match r {
        Result::Ok(()) => Result::Ok(()),
        Result::Err(e) => Result::Err(e@),
    }
}

/// What a run did, given the statements it executed: they mirror the
/// parsed program, and the final session and result are exactly the
/// big-step execution from the state before the run, under the sampled
/// clock; a top-level return is an error of its own.
pub open spec fn run_stmts_post(
    stmts: Seq<Statement>,
    ps: Seq<crate::statement::StmtModel>,
    pre: StModel,
    post: StModel,
    rv: Result<(), Seq<char>>,
) -> bool {
    &&& all_stmts_wf(stmts, 0)
    &&& stmts_view(stmts, 0) == ps
    &&& ({
        let st0 = StModel { env: pre.env, out: pre.out, clock: post.clock };
        let (st2, fr) = m_exec_block(EVAL_BUDGET as nat, stmts, 0, st0);
        &&& post == st2
        &&& (match fr {
            Result::Err(m) => rv matches Result::Err(e) && e == m,
            Result::Ok(FlowModel::Normal) => rv is Ok,
            Result::Ok(FlowModel::Returned(_)) => rv matches Result::Err(e) && e
                == toplevel_return_chars(),
        })
    })
}

/// What a run did, given the tokens it scanned: they mirror the scan of
/// the source plus the end-of-file token; parse errors come back joined
/// by newlines and leave the session alone, and otherwise some statement
/// list mirroring the parsed program was executed.
pub open spec fn run_toks_post(
    toks: Seq<Token>,
    source: Seq<char>,
    pre: StModel,
    post: StModel,
    rv: Result<(), Seq<char>>,
) -> bool {
    let (mt, me, ml) = m_scan(source, 0, 1);
    &&& toks.map_values(|t: Token| tok_view(t)) == mt + seq![
        TokModel { kind: TokenType::Eof, lexeme: Seq::empty(), lit: Option::None, line: ml },
    ]
    &&& crate::token::token_stream_ok(toks)
    &&& ({
        let (ps, pe) = crate::parser::m_program(toks, 0);
        &&& (pe.len() > 0 ==> (rv matches Result::Err(e) && e == join_chars(pe)) && post.env
            == pre.env && post.out == pre.out)
        &&& (pe.len() == 0 ==> exists|stmts: Seq<Statement>|
            #[trigger] run_stmts_post(stmts, ps, pre, post, rv))
    })
}

/// What a run did: scan errors come back joined by newlines and leave the
/// session alone; otherwise the source was tokenized, parsed and
/// executed per the models above.
pub open spec fn run_post(
    source: Seq<char>,
    pre: StModel,
    post: StModel,
    rv: Result<(), Seq<char>>,
) -> bool {
    let (mt, me, ml) = m_scan(source, 0, 1);
    &&& post.clock >= 0
    &&& (me.len() > 0 ==> (rv matches Result::Err(e) && e == join_chars(me)) && post.env
        == pre.env && post.out == pre.out)
    &&& (me.len() == 0 ==> exists|toks: Seq<Token>|
        #[trigger] run_toks_post(toks, source, pre, post, rv))
}

impl Interpreter {
    /// Runs one piece of source text against the session: scan it, parse
    /// it, and execute it, with the clock sampled afresh.  The first
    /// failing stage reports its errors; printed lines accumulate in
    /// `output`.
    #[verifier::rlimit(100)]
    #[verifier::spinoff_prover]
    pub fn run(&mut self, source: &str) -> (r: Result<(), String>)
        requires
            old(self).wf(),
        ensures
            final(self).wf(),
            run_post(source@, st_view(*old(self)), st_view(*final(self)), unit_res_view(r)),
    {
        let ghost pre = st_view(*old(self));
        self.clock = now_seconds();
        let mut scanner = crate::scanner::Scanner::new(source);
        let tokens = match scanner.scan_tokens() {
            Result::Ok(t) => t,
            Result::Err(e) => {
                return Result::Err(e);
            },
        };
        let ghost toks_g = tokens@;
        proof {
            assert(scanner.tokens@.map_values(|t: Token| tok_view(t)).skip(0)
                =~= scanner.tokens@.map_values(|t: Token| tok_view(t)));
        }
        let mut parser = crate::parser::Parser::new(tokens);
        let statements = match parser.parse() {
            Result::Ok(s) => s,
            Result::Err(e) => {
                proof {
                    assert(run_toks_post(
                        toks_g,
                        source@,
                        pre,
                        st_view(*self),
                        unit_res_view(Result::Err(e)),
                    ));
                }
                return Result::Err(e);
            },
        };
        let ghost stmts_g = statements@;
        let ghost ps = crate::parser::m_program(toks_g, 0).0;
        let ghost st_before = st_view(*self);
        let r = self.interpret_statements(statements);
        proof {
            lemma_clock_block(EVAL_BUDGET as nat, stmts_g, 0, st_before);
            assert(st_view(*self).clock == st_before.clock);
            assert(st_before == (StModel {
                env: pre.env,
                out: pre.out,
                clock: st_view(*self).clock,
            }));
            assert(run_stmts_post(stmts_g, ps, pre, st_view(*self), unit_res_view(r)));
            assert(run_toks_post(toks_g, source@, pre, st_view(*self), unit_res_view(r)));
        }
        r
    }
}

/// The scope store of a fresh session: one global frame holding the clock
/// builtin.
pub open spec fn fresh_env_model() -> EnvModel {
    EnvModel {
        frames: seq![
            crate::environment::FrameModel {
                names: seq!["clock"@],
                vals: seq![clock_builtin_model()],
                parent: Option::None,
            },
        ],
        current: 0,
    }
}

/// Runs a whole source text in a fresh session and hands back the lines
/// it printed, or the errors of the first failing stage.
/// What `run_source` yields: some final session reached by running the
/// source in a fresh session, whose printed lines are the output on
/// success and whose first failing stage's messages are the error.
pub open spec fn run_source_post(source: Seq<char>, r: Result<Vec<String>, String>) -> bool {
    let pre = StModel { env: fresh_env_model(), out: Seq::empty(), clock: 0 };
    match r {
        Result::Ok(lines) => exists|post: StModel|
            #[trigger] run_post(source, pre, post, Result::<(), Seq<char>>::Ok(())) && lines@.map_values(
                |s: String| s@,
            ) == post.out,
        Result::Err(e) => exists|post: StModel|
            #[trigger] run_post(source, pre, post, Result::<(), Seq<char>>::Err(e@)),
    }
}

#[verifier::rlimit(100)]
#[verifier::spinoff_prover]
pub fn run_source(source: &str) -> (r: Result<Vec<String>, String>)
    ensures
        run_source_post(source@, r),
{
    let mut session = Interpreter::new();
    let ghost pre = StModel { env: fresh_env_model(), out: Seq::empty(), clock: 0 };
    let ghost pre0 = st_view(session);
    proof {
        assert(pre0.env == fresh_env_model());
        assert(pre0.out == Seq::<Seq<char>>::empty());
    }
    let rr = session.run(source);
    let ghost post = st_view(session);
    match rr {
        Result::Ok(()) => {
            let lines_out = session.output;
            proof {
                assert(pre0 == (StModel { env: pre.env, out: pre.out, clock: pre0.clock }));
                assert(run_post(
                    source@,
                    StModel { env: pre.env, out: pre.out, clock: pre0.clock },
                    post,
                    Result::<(), Seq<char>>::Ok(()),
                ));
                lemma_run_post_pre_clock(source@, post, pre, Result::<(), Seq<char>>::Ok(()));
                assert(lines_out@.map_values(|s: String| s@) == post.out);
                assert(exists|p: StModel|
                    #[trigger] run_post(source@, pre, p, Result::<(), Seq<char>>::Ok(()))
                        && lines_out@.map_values(|s: String| s@) == p.out);
                assert(run_source_post(source@, Result::Ok(lines_out)));
            }
            Result::Ok(lines_out)
        },
        Result::Err(e) => {
            proof {
                assert(pre0 == (StModel { env: pre.env, out: pre.out, clock: pre0.clock }));
                assert(run_post(
                    source@,
                    StModel { env: pre.env, out: pre.out, clock: pre0.clock },
                    post,
                    Result::<(), Seq<char>>::Err(e@),
                ));
                lemma_run_post_pre_clock(source@, post, pre, Result::<(), Seq<char>>::Err(e@));
                assert(run_post(
                    source@,
                    StModel { env: fresh_env_model(), out: Seq::empty(), clock: 0 },
                    post,
                    Result::<(), Seq<char>>::Err(e@),
                ));
                assert(exists|p: StModel|
                    #[trigger] run_post(
                        source@,
                        StModel { env: fresh_env_model(), out: Seq::empty(), clock: 0 },
                        p,
                        Result::<(), Seq<char>>::Err(e@),
                    ));
                assert((Result::<Vec<String>, String>::Err(e))->Err_0 == e);
                assert(exists|p: StModel|
                    #[trigger] run_post(
                        source@,
                        StModel { env: fresh_env_model(), out: Seq::empty(), clock: 0 },
                        p,
                        Result::<(), Seq<char>>::Err(
                            (Result::<Vec<String>, String>::Err(e))->Err_0@,
                        ),
                    ));
                assert(run_source_post(source@, Result::<Vec<String>, String>::Err(e)));
            }
            Result::Err(e)
        },
    }
}

/// A run's record does not depend on the clock the session held before
/// the run: only the sampled clock matters.
proof fn lemma_run_post_pre_clock(
    source: Seq<char>,
    post: StModel,
    pre: StModel,
    rv: Result<(), Seq<char>>,
)
    requires
        exists|c: int|
            #[trigger] run_post(
                source,
                StModel { env: pre.env, out: pre.out, clock: c },
                post,
                rv,
            ),
    ensures
        run_post(source, pre, post, rv),
{
    let c = choose|c: int|
        #[trigger] run_post(source, StModel { env: pre.env, out: pre.out, clock: c }, post, rv);
    let pre_c = StModel { env: pre.env, out: pre.out, clock: c };
    let (mt, me, ml) = m_scan(source, 0, 1);
    if me.len() == 0 {
        let toks = choose|toks: Seq<Token>| #[trigger] run_toks_post(toks, source, pre_c, post, rv);
        assert(run_toks_post(toks, source, pre, post, rv)) by {
            let (ps, pe) = crate::parser::m_program(toks, 0);
            if pe.len() == 0 {
                let stmts = choose|stmts: Seq<Statement>|
                    #[trigger] run_stmts_post(stmts, ps, pre_c, post, rv);
                assert(run_stmts_post(stmts, ps, pre, post, rv));
            }
        }
    }
}

} // verus!
