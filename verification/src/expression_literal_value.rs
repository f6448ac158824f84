//! Runtime values and the operator algebra over them.
//!
//! Values form a closed sum; every operator is a total function from a pair
//! of values to a value or an error message, specified exactly over the
//! ghost view of the value domain.  Integer arithmetic wraps around on
//! overflow; numbers with a fractional part are exact decimals (see `dec`),
//! so value equality on them is exact.

use vstd::prelude::*;

verus! {

use std::rc::Rc;

use vstd::string::StringExecFns;

use crate::dec::{Dec, canon_spec, dec_add_spec, dec_chars, dec_lt_spec, dec_mul_spec, dec_div_spec, dec_neg_spec};
use crate::statement::Statement;
use crate::strutil::{chars_to_string, digits_of, int_chars, i64_to_string, str_to_chars, u64_digits};
use crate::token::{Token, TokenType, kind_name_chars};

/// How a callable runs: the clock builtin, or a function declared in the
/// program, which carries its parameters, its body and the scope it closed
/// over.
#[derive(Debug, Clone)]
pub enum FunKind {
    Clock,
    Declared { params: Vec<String>, body: Rc<Vec<Statement>>, closure: usize },
}

/// A runtime value.
#[derive(Debug, Clone)]
pub enum LiteralValue {
    IntValue(i64),
    FValue(Dec),
    StringValue(String),
    True,
    False,
    Nil,
    Callable { name: String, arity: usize, fun: FunKind },
}

/// The ghost view of how a callable runs.
pub ghost enum FunModel {
    Clock,
    Declared { params: Seq<Seq<char>>, body: Seq<Statement>, closure: nat },
}

/// The ghost view of a runtime value: text as character sequences, numbers
/// as themselves.
pub ghost enum VModel {
    Int(i64),
    F(Dec),
    Str(Seq<char>),
    Bool(bool),
    Nil,
    Callable { name: Seq<char>, arity: nat, fun: FunModel },
}

/// The view of a callable's body.
pub open spec fn fun_view(f: FunKind) -> FunModel {
    match f {
        FunKind::Clock => FunModel::Clock,
        FunKind::Declared { params, body, closure } => FunModel::Declared {
            params: params@.map_values(|p: String| p@),
            body: body@,
            closure: closure as nat,
        },
    }
}

/// The view of a runtime value.
pub open spec fn vview(v: LiteralValue) -> VModel {
    match v {
        LiteralValue::IntValue(i) => VModel::Int(i),
        LiteralValue::FValue(d) => VModel::F(d),
        LiteralValue::StringValue(s) => VModel::Str(s@),
        LiteralValue::True => VModel::Bool(true),
        LiteralValue::False => VModel::Bool(false),
        LiteralValue::Nil => VModel::Nil,
        LiteralValue::Callable { name, arity, fun } => VModel::Callable {
            name: name@,
            arity: arity as nat,
            fun: fun_view(fun),
        },
    }
}

impl LiteralValue {
    /// Well-formedness: decimal payloads are canonical.
    pub open spec fn wf(&self) -> bool {
        match self {
            LiteralValue::FValue(d) => d.wf(),
            _ => true,
        }
    }
}

/// The boolean projection of a value: zero numbers, the empty string,
/// `false` and `nil` are falsy; everything else is truthy.
pub open spec fn truthy_spec(v: VModel) -> bool {
    match v {
        VModel::Int(i) => i != 0,
        VModel::F(d) => d.m != 0,
        VModel::Str(s) => s.len() != 0,
        VModel::Bool(b) => b,
        VModel::Nil => false,
        VModel::Callable { .. } => true,
    }
}

/// The display form of a value.
pub open spec fn vchars(v: VModel) -> Seq<char> {
    match v {
        VModel::Int(i) => int_chars(i as int),
        VModel::F(d) => dec_chars(d),
        VModel::Str(s) => s,
        VModel::Bool(b) => if b {
            "true"@
        } else {
            "false"@
        },
        VModel::Nil => "nil"@,
        VModel::Callable { name, arity, .. } => "Callable: "@ + name + seq![' '] + digits_of(arity),
    }
}

/// The kind name of a value, as error messages cite it.
pub open spec fn vkind_chars(v: VModel) -> Seq<char> {
    match v {
        VModel::Int(_) => "Int"@,
        VModel::F(_) => "Float"@,
        VModel::Str(_) => "String"@,
        VModel::Bool(_) => "Bool"@,
        VModel::Nil => "Nil"@,
        VModel::Callable { .. } => "Callable"@,
    }
}

/// Structural equality of values; callables compare by name and arity.
pub open spec fn val_eq_spec(a: VModel, b: VModel) -> bool {
    match (a, b) {
        (VModel::Int(x), VModel::Int(y)) => x == y,
        (VModel::F(x), VModel::F(y)) => x == y,
        (VModel::Str(x), VModel::Str(y)) => x == y,
        (VModel::Bool(x), VModel::Bool(y)) => x == y,
        (VModel::Nil, VModel::Nil) => true,
        (
            VModel::Callable { name: an, arity: aa, .. },
            VModel::Callable { name: bn, arity: ba, .. },
        ) => an == bn && aa == ba,
        _ => false,
    }
}

impl LiteralValue {
    /// The boolean projection of this value.
    pub fn truthy(&self) -> (r: bool)
        ensures
            r == truthy_spec(vview(*self)),
    {
        match self {
            LiteralValue::IntValue(i) => *i != 0,
            LiteralValue::FValue(d) => d.m != 0,
            LiteralValue::StringValue(s) => {
                let len = s.as_str().unicode_len();
                len != 0
            },
            LiteralValue::True => true,
            LiteralValue::False => false,
            LiteralValue::Nil => false,
            LiteralValue::Callable { .. } => true,
        }
    }

    /// `True` when this value is falsy, `False` when it is truthy.
    pub fn is_falsy(&self) -> (r: LiteralValue)
        ensures
            r == (if truthy_spec(vview(*self)) {
                LiteralValue::False
            } else {
                LiteralValue::True
            }),
    {
        if self.truthy() {
            LiteralValue::False
        } else {
            LiteralValue::True
        }
    }

    /// The kind name of this value, as error messages cite it.
    pub fn to_type(&self) -> (r: &'static str)
        ensures
            r@ == vkind_chars(vview(*self)),
    {
        match self {
            LiteralValue::IntValue(_) => "Int",
            LiteralValue::FValue(_) => "Float",
            LiteralValue::True => "Bool",
            LiteralValue::False => "Bool",
            LiteralValue::StringValue(_) => "String",
            LiteralValue::Nil => "Nil",
            LiteralValue::Callable { .. } => "Callable",
        }
    }

    /// The display form of this value.
    pub fn to_string(&self) -> (r: String)
        ensures
            r@ == vchars(vview(*self)),
    {
        match self {
            LiteralValue::IntValue(i) => i64_to_string(*i),
            LiteralValue::FValue(d) => d.to_display_string(),
            LiteralValue::StringValue(s) => s.clone(),
            LiteralValue::True => {
                let mut s = String::new();
                s.append("true");
                s
            },
            LiteralValue::False => {
                let mut s = String::new();
                s.append("false");
                s
            },
            LiteralValue::Nil => {
                let mut s = String::new();
                s.append("nil");
                s
            },
            LiteralValue::Callable { name, arity, .. } => {
                let mut s = String::new();
                s.append("Callable: ");
                s.append(name.as_str());
                s.append(" ");
                let ds = crate::strutil::u64_digits(*arity as u64);
                let dstr = chars_to_string(&ds);
                s.append(dstr.as_str());
                proof {
                    reveal_strlit(" ");
                    assert(s@ =~= vchars(vview(*self)));
                }
                s
            },
        }
    }

    /// The diagnostic form of this value: like the display form, but with
    /// strings quoted and callables written out with their field names.
    pub fn debug_string(&self) -> (r: String)
        ensures
            r@ == (match vview(*self) {
                VModel::Str(s) => seq!['"'] + s + seq!['"'],
                VModel::Callable { name, arity, .. } => "Callable { name: "@ + name + ", arity: "@
                    + digits_of(arity) + " }"@,
                other => vchars(other),
            }),
    {
        match self {
            LiteralValue::StringValue(s) => {
                let mut out = String::new();
                proof {
                    reveal_strlit("\"");
                }
                out.append("\"");
                out.append(s.as_str());
                out.append("\"");
                proof {
                    assert(out@ =~= seq!['"'] + s@ + seq!['"']);
                }
                out
            },
            LiteralValue::Callable { name, arity, .. } => {
                let mut out = String::new();
                out.append("Callable { name: ");
                out.append(name.as_str());
                out.append(", arity: ");
                let ds = u64_digits(*arity as u64);
                let dstr = chars_to_string(&ds);
                out.append(dstr.as_str());
                out.append(" }");
                proof {
                    assert(out@ =~= "Callable { name: "@ + name@ + ", arity: "@ + digits_of(
                        *arity as nat,
                    ) + " }"@);
                }
                out
            },
            _ => self.to_string(),
        }
    }

    /// Whether a token can be turned into a literal value: a number token
    /// with a numeric payload, a string token with a text payload, or one
    /// of the keyword literals.
    pub open spec fn token_convertible(t: Token) -> bool {
        match t.token_type {
            TokenType::Number => t.literal matches Option::Some(l) && (l matches
            crate::token::LiteralValue::IntValue(_) || l matches crate::token::LiteralValue::FValue(
                _,
            )),
            TokenType::String => t.literal matches Option::Some(
                crate::token::LiteralValue::StringValue(_),
            ),
            TokenType::False => true,
            TokenType::True => true,
            TokenType::Nil => true,
            _ => false,
        }
    }

    /// The value a literal token denotes.
    pub open spec fn from_token_spec(t: Token) -> LiteralValue {
        match t.token_type {
            TokenType::Number => match t.literal {
                Option::Some(crate::token::LiteralValue::IntValue(i)) => LiteralValue::IntValue(i),
                Option::Some(crate::token::LiteralValue::FValue(d)) => LiteralValue::FValue(d),
                _ => LiteralValue::Nil,
            },
            TokenType::String => match t.literal {
                Option::Some(crate::token::LiteralValue::StringValue(s)) =>
                    LiteralValue::StringValue(s),
                _ => LiteralValue::Nil,
            },
            TokenType::False => LiteralValue::False,
            TokenType::True => LiteralValue::True,
            _ => LiteralValue::Nil,
        }
    }

    /// Converts a literal token into the value it denotes.
    pub fn from_token(token: Token) -> (r: LiteralValue)
        requires
            Self::token_convertible(token),
        ensures
            r == Self::from_token_spec(token),
    {
        match token.token_type {
            TokenType::Number => match token.literal {
                Option::Some(crate::token::LiteralValue::IntValue(i)) => LiteralValue::IntValue(i),
                Option::Some(crate::token::LiteralValue::FValue(d)) => LiteralValue::FValue(d),
                _ => LiteralValue::Nil,
            },
            TokenType::String => match token.literal {
                Option::Some(crate::token::LiteralValue::StringValue(s)) =>
                    LiteralValue::StringValue(s),
                _ => LiteralValue::Nil,
            },
            TokenType::False => LiteralValue::False,
            TokenType::True => LiteralValue::True,
            _ => LiteralValue::Nil,
        }
    }

    /// Structural equality; callables compare by name and arity.
    pub fn values_equal(&self, other: &LiteralValue) -> (r: bool)
        ensures
            r == val_eq_spec(vview(*self), vview(*other)),
    {
        match (self, other) {
            (LiteralValue::IntValue(a), LiteralValue::IntValue(b)) => *a == *b,
            (LiteralValue::FValue(a), LiteralValue::FValue(b)) => *a == *b,
            (LiteralValue::StringValue(a), LiteralValue::StringValue(b)) => crate::strutil::str_eq(
                a.as_str(),
                b.as_str(),
            ),
            (LiteralValue::True, LiteralValue::True) => true,
            (LiteralValue::False, LiteralValue::False) => true,
            (LiteralValue::Nil, LiteralValue::Nil) => true,
            (
                LiteralValue::Callable { name: an, arity: aa, .. },
                LiteralValue::Callable { name: bn, arity: ba, .. },
            ) => {
                let names_equal = crate::strutil::str_eq(an.as_str(), bn.as_str());
                names_equal && *aa == *ba
            },
            _ => false,
        }
    }
}

impl PartialEq for LiteralValue {
    fn eq(&self, other: &LiteralValue) -> (r: bool) {
        self.values_equal(other)
    }
}

impl vstd::std_specs::cmp::PartialEqSpecImpl for LiteralValue {
    open spec fn obeys_eq_spec() -> bool {
        true
    }

    open spec fn eq_spec(&self, other: &LiteralValue) -> bool {
        val_eq_spec(vview(*self), vview(*other))
    }
}


/// Validity of a value against a scope store of `n` frames: decimals are
/// canonical, and a declared callable closes over an existing frame and
/// carries a well-formed body.
pub open spec fn val_ok(v: VModel, n: int) -> bool {
    match v {
        VModel::F(d) => d.wf(),
        VModel::Callable { fun: FunModel::Declared { params, body, closure }, .. } => closure < n
            && crate::statement::all_stmts_wf(body, 0),
        _ => true,
    }
}

/// Validity does not lapse when the store grows.
pub proof fn lemma_val_ok_grow(v: VModel, n: int, n2: int)
    requires
        val_ok(v, n),
        n <= n2,
    ensures
        val_ok(v, n2),
{
}

/// The view of a result: values and messages become their views.
pub open spec fn res_view(r: Result<LiteralValue, String>) -> Result<VModel, Seq<char>> {
    match r {
        Result::Ok(v) => Result::Ok(vview(v)),
        Result::Err(e) => Result::Err(e@),
    }
}

/// The message reporting an operator applied to unsupported operands.
pub open spec fn not_impl_chars(op: TokenType, l: VModel, r: VModel) -> Seq<char> {
    kind_name_chars(op) + " operation is not implemented for: "@ + vchars(l) + " and "@ + vchars(r)
}

/// The canonical decimal an integer promotes to.
pub open spec fn dec_of_int(i: i64) -> Dec {
    canon_spec(i as int, 0)
}

/// What `+` yields: wrapping addition on integers, exact decimal addition
/// with promotion on mixed numbers, concatenation when either side is a
/// string, and an error otherwise.
pub open spec fn plus_spec(a: VModel, b: VModel) -> Result<VModel, Seq<char>> {
    match (a, b) {
        (VModel::Int(x), VModel::Int(y)) => Result::Ok(VModel::Int(x.wrapping_add(y))),
        (VModel::F(x), VModel::F(y)) => Result::Ok(VModel::F(dec_add_spec(x, y))),
        (VModel::Int(x), VModel::F(y)) => Result::Ok(VModel::F(dec_add_spec(dec_of_int(x), y))),
        (VModel::F(x), VModel::Int(y)) => Result::Ok(VModel::F(dec_add_spec(x, dec_of_int(y)))),
        (VModel::Str(s), other) => Result::Ok(VModel::Str(s + vchars(other))),
        (other, VModel::Str(s)) => Result::Ok(VModel::Str(vchars(other) + s)),
        _ => Result::Err(not_impl_chars(TokenType::Plus, a, b)),
    }
}

/// What `-` yields: numeric only, with promotion.
pub open spec fn minus_spec(a: VModel, b: VModel) -> Result<VModel, Seq<char>> {
    match (a, b) {
        (VModel::Int(x), VModel::Int(y)) => Result::Ok(VModel::Int(x.wrapping_sub(y))),
        (VModel::F(x), VModel::F(y)) => Result::Ok(
            VModel::F(dec_add_spec(x, dec_neg_spec(y))),
        ),
        (VModel::Int(x), VModel::F(y)) => Result::Ok(
            VModel::F(dec_add_spec(dec_of_int(x), dec_neg_spec(y))),
        ),
        (VModel::F(x), VModel::Int(y)) => Result::Ok(
            VModel::F(dec_add_spec(x, dec_neg_spec(dec_of_int(y)))),
        ),
        _ => Result::Err(not_impl_chars(TokenType::Minus, a, b)),
    }
}

/// What `*` yields: numeric only, with promotion.
pub open spec fn star_spec(a: VModel, b: VModel) -> Result<VModel, Seq<char>> {
    match (a, b) {
        (VModel::Int(x), VModel::Int(y)) => Result::Ok(VModel::Int(x.wrapping_mul(y))),
        (VModel::F(x), VModel::F(y)) => Result::Ok(VModel::F(dec_mul_spec(x, y))),
        (VModel::Int(x), VModel::F(y)) => Result::Ok(VModel::F(dec_mul_spec(dec_of_int(x), y))),
        (VModel::F(x), VModel::Int(y)) => Result::Ok(VModel::F(dec_mul_spec(x, dec_of_int(y)))),
        _ => Result::Err(not_impl_chars(TokenType::Star, a, b)),
    }
}

/// Whether a value is a numeric zero.
pub open spec fn is_zero_value(v: VModel) -> bool {
    match v {
        VModel::Int(x) => x == 0,
        VModel::F(d) => d.m == 0,
        _ => false,
    }
}

/// Truncating division of 64-bit integers with a nonzero divisor; the one
/// overflowing quotient wraps around.
pub open spec fn int_div_spec(x: i64, y: i64) -> i64 {
    match x.checked_div(y) {
        Option::Some(q) => q,
        Option::None => i64::MIN,
    }
}

/// What `/` yields: the division-by-zero error on any zero divisor, a
/// numeric quotient with promotion otherwise, and an error on
/// non-numeric operands.
pub open spec fn slash_spec(a: VModel, b: VModel) -> Result<VModel, Seq<char>> {
    if is_zero_value(b) {
        Result::Err("Division by 0"@)
    } else {
        match (a, b) {
            (VModel::Int(x), VModel::Int(y)) => Result::Ok(VModel::Int(int_div_spec(x, y))),
            (VModel::F(x), VModel::F(y)) => Result::Ok(VModel::F(dec_div_spec(x, y))),
            (VModel::Int(x), VModel::F(y)) => Result::Ok(
                VModel::F(dec_div_spec(dec_of_int(x), y)),
            ),
            (VModel::F(x), VModel::Int(y)) => Result::Ok(
                VModel::F(dec_div_spec(x, dec_of_int(y))),
            ),
            _ => Result::Err(not_impl_chars(TokenType::Slash, a, b)),
        }
    }
}

/// Lexicographic order on character sequences, by code point.
pub open spec fn seq_lt(a: Seq<char>, b: Seq<char>) -> bool
    decreases a.len(),
{
    if b.len() == 0 {
        false
    } else if a.len() == 0 {
        true
    } else if a[0] != b[0] {
        (a[0] as u32) < (b[0] as u32)
    } else {
        seq_lt(a.subrange(1, a.len() as int), b.subrange(1, b.len() as int))
    }
}

/// The strict-order comparison underlying `<`, `<=`, `>` and `>=`: numeric
/// with promotion, lexicographic on two strings, an error otherwise.
pub open spec fn lt_value_spec(a: VModel, b: VModel) -> Option<bool> {
    match (a, b) {
        (VModel::Int(x), VModel::Int(y)) => Option::Some(x < y),
        (VModel::F(x), VModel::F(y)) => Option::Some(dec_lt_spec(x, y)),
        (VModel::Int(x), VModel::F(y)) => Option::Some(dec_lt_spec(dec_of_int(x), y)),
        (VModel::F(x), VModel::Int(y)) => Option::Some(dec_lt_spec(x, dec_of_int(y))),
        (VModel::Str(x), VModel::Str(y)) => Option::Some(seq_lt(x, y)),
        _ => Option::None,
    }
}

/// The boolean value for `b`.
pub open spec fn bool_value(b: bool) -> VModel {
    if b {
        VModel::Bool(true)
    } else {
        VModel::Bool(false)
    }
}

/// What a comparison operator yields, given the operator kind.
pub open spec fn compare_spec(op: TokenType, a: VModel, b: VModel) -> Result<VModel, Seq<char>> {
    match lt_value_spec(a, b) {
        Option::None => Result::Err(not_impl_chars(op, a, b)),
        Option::Some(_) => Result::Ok(
            bool_value(
                match op {
                    TokenType::Less => lt_value_spec(a, b)->Some_0,
                    TokenType::Greater => lt_value_spec(b, a)->Some_0,
                    TokenType::LessEqual => !(lt_value_spec(b, a)->Some_0),
                    _ => !(lt_value_spec(a, b)->Some_0),
                },
            ),
        ),
    }
}

/// Compares two character vectors lexicographically by code point.
fn chars_lt(a: &Vec<char>, b: &Vec<char>) -> (r: bool)
    ensures
        r == seq_lt(a@, b@),
{
    let mut i: usize = 0;
    let alen = a.len();
    let blen = b.len();
    proof {
        assert(a@.subrange(0, a@.len() as int) =~= a@);
        assert(b@.subrange(0, b@.len() as int) =~= b@);
    }
    while i < alen && i < blen
        invariant
            i <= a@.len(),
            i <= b@.len(),
            alen == a@.len(),
            blen == b@.len(),
            forall|j: int| 0 <= j < i ==> a@[j] == b@[j],
            seq_lt(a@, b@) == seq_lt(
                a@.subrange(i as int, a@.len() as int),
                b@.subrange(i as int, b@.len() as int),
            ),
        decreases a@.len() - i,
    {
        let ca = a[i];
        let cb = b[i];
        proof {
            lemma_seq_lt_step(a@, b@, i as int);
        }
        if ca != cb {
            proof {
                assert(a@.subrange(i as int, a@.len() as int)[0] == a@[i as int]);
                assert(b@.subrange(i as int, b@.len() as int)[0] == b@[i as int]);
            }
            return (ca as u32) < (cb as u32);
        }
        i = i + 1;
    }
    proof {
        let sa = a@.subrange(i as int, a@.len() as int);
        let sb = b@.subrange(i as int, b@.len() as int);
        if i == alen {
            assert(sa.len() == 0);
            if i == blen {
                assert(sb.len() == 0);
                assert(!seq_lt(sa, sb));
            } else {
                assert(sb.len() > 0);
                assert(seq_lt(sa, sb));
            }
        } else {
            assert(sb.len() == 0);
            assert(!seq_lt(sa, sb));
        }
    }
    alen < blen
}

/// Unfolding a lexicographic comparison past an equal prefix character.
proof fn lemma_seq_lt_step(a: Seq<char>, b: Seq<char>, i: int)
    requires
        0 <= i < a.len(),
        i < b.len(),
    ensures
        a[i] == b[i] ==> seq_lt(
            a.subrange(i, a.len() as int),
            b.subrange(i, b.len() as int),
        ) == seq_lt(a.subrange(i + 1, a.len() as int), b.subrange(i + 1, b.len() as int)),
        a[i] != b[i] ==> seq_lt(a.subrange(i, a.len() as int), b.subrange(i, b.len() as int)) == ((
        a[i] as u32) < (b[i] as u32)),
{
    let sa = a.subrange(i, a.len() as int);
    let sb = b.subrange(i, b.len() as int);
    assert(sa.len() > 0);
    assert(sb.len() > 0);
    assert(sa[0] == a[i]);
    assert(sb[0] == b[i]);
    if a[i] == b[i] {
        assert(sa.subrange(1, sa.len() as int) =~= a.subrange(i + 1, a.len() as int));
        assert(sb.subrange(1, sb.len() as int) =~= b.subrange(i + 1, b.len() as int));
    }
}

impl LiteralValue {
    /// A copy of this value with the same view; a declared callable shares
    /// its body.
    pub fn dup(&self) -> (r: LiteralValue)
        ensures
            vview(r) == vview(*self),
            r.wf() == self.wf(),
    {
        match self {
            LiteralValue::IntValue(i) => LiteralValue::IntValue(*i),
            LiteralValue::FValue(d) => LiteralValue::FValue(*d),
            LiteralValue::StringValue(s) => LiteralValue::StringValue(s.clone()),
            LiteralValue::True => LiteralValue::True,
            LiteralValue::False => LiteralValue::False,
            LiteralValue::Nil => LiteralValue::Nil,
            LiteralValue::Callable { name, arity, fun } => {
                let fun2 = match fun {
                    FunKind::Clock => FunKind::Clock,
                    FunKind::Declared { params, body, closure } => {
                        let mut params2: Vec<String> = Vec::new();
                        let mut k: usize = 0;
                        while k < params.len()
                            invariant
                                k <= params@.len(),
                                params2@ == params@.subrange(0, k as int),
                            decreases params@.len() - k,
                        {
                            params2.push(params[k].clone());
                            k = k + 1;
                            assert(params2@ =~= params@.subrange(0, k as int));
                        }
                        proof {
                            assert(params@.subrange(0, params@.len() as int) =~= params@);
                        }
                        FunKind::Declared {
                            params: params2,
                            body: crate::strutil::rc_dup(body),
                            closure: *closure,
                        }
                    },
                };
                let r = LiteralValue::Callable { name: name.clone(), arity: *arity, fun: fun2 };
                proof {
                    assert(vview(r) == vview(*self));
                }
                r
            },
        }
    }

    /// The error reporting an operator applied to unsupported operands.
    pub fn not_implemented_error(op: TokenType, left: &LiteralValue, right: &LiteralValue) -> (r:
        Result<LiteralValue, String>)
        ensures
            r is Err,
            res_view(r) == Result::<VModel, Seq<char>>::Err(
                not_impl_chars(op, vview(*left), vview(*right)),
            ),
    {
        let mut msg = String::new();
        msg.append(op.kind_name());
        msg.append(" operation is not implemented for: ");
        let ls = left.to_string();
        msg.append(ls.as_str());
        msg.append(" and ");
        let rs = right.to_string();
        msg.append(rs.as_str());
        proof {
            assert(msg@ =~= not_impl_chars(op, vview(*left), vview(*right)));
        }
        Result::Err(msg)
    }

    /// Applies `+`.
    pub fn process_plus_operator(left: &LiteralValue, right: &LiteralValue) -> (r: Result<
        LiteralValue,
        String,
    >)
        requires
            left.wf(),
            right.wf(),
        ensures
            res_view(r) == plus_spec(vview(*left), vview(*right)),
            r matches Result::Ok(v) ==> v.wf(),
    {
        match (left, right) {
            (LiteralValue::IntValue(x), LiteralValue::IntValue(y)) => Result::Ok(
                LiteralValue::IntValue(x.wrapping_add(*y)),
            ),
            (LiteralValue::FValue(x), LiteralValue::FValue(y)) => Result::Ok(
                LiteralValue::FValue(x.add_dec(y)),
            ),
            (LiteralValue::IntValue(x), LiteralValue::FValue(y)) => Result::Ok(
                LiteralValue::FValue(Dec::from_i64(*x).add_dec(y)),
            ),
            (LiteralValue::FValue(x), LiteralValue::IntValue(y)) => Result::Ok(
                LiteralValue::FValue(x.add_dec(&Dec::from_i64(*y))),
            ),
            (LiteralValue::StringValue(s), other) => {
                let mut out = s.clone();
                let os = other.to_string();
                out.append(os.as_str());
                Result::Ok(LiteralValue::StringValue(out))
            },
            (other, LiteralValue::StringValue(s)) => {
                let mut out = other.to_string();
                out.append(s.as_str());
                Result::Ok(LiteralValue::StringValue(out))
            },
            _ => LiteralValue::not_implemented_error(TokenType::Plus, left, right),
        }
    }

    /// Applies `-`.
    pub fn process_minus_operator(left: &LiteralValue, right: &LiteralValue) -> (r: Result<
        LiteralValue,
        String,
    >)
        requires
            left.wf(),
            right.wf(),
        ensures
            res_view(r) == minus_spec(vview(*left), vview(*right)),
            r matches Result::Ok(v) ==> v.wf(),
    {
        match (left, right) {
            (LiteralValue::IntValue(x), LiteralValue::IntValue(y)) => Result::Ok(
                LiteralValue::IntValue(x.wrapping_sub(*y)),
            ),
            (LiteralValue::FValue(x), LiteralValue::FValue(y)) => Result::Ok(
                LiteralValue::FValue(x.sub_dec(y)),
            ),
            (LiteralValue::IntValue(x), LiteralValue::FValue(y)) => Result::Ok(
                LiteralValue::FValue(Dec::from_i64(*x).sub_dec(y)),
            ),
            (LiteralValue::FValue(x), LiteralValue::IntValue(y)) => Result::Ok(
                LiteralValue::FValue(x.sub_dec(&Dec::from_i64(*y))),
            ),
            _ => LiteralValue::not_implemented_error(TokenType::Minus, left, right),
        }
    }

    /// Applies `*`.
    pub fn process_star_operator(left: &LiteralValue, right: &LiteralValue) -> (r: Result<
        LiteralValue,
        String,
    >)
        requires
            left.wf(),
            right.wf(),
        ensures
            res_view(r) == star_spec(vview(*left), vview(*right)),
            r matches Result::Ok(v) ==> v.wf(),
    {
        match (left, right) {
            (LiteralValue::IntValue(x), LiteralValue::IntValue(y)) => Result::Ok(
                LiteralValue::IntValue(x.wrapping_mul(*y)),
            ),
            (LiteralValue::FValue(x), LiteralValue::FValue(y)) => Result::Ok(
                LiteralValue::FValue(x.mul_dec(y)),
            ),
            (LiteralValue::IntValue(x), LiteralValue::FValue(y)) => Result::Ok(
                LiteralValue::FValue(Dec::from_i64(*x).mul_dec(y)),
            ),
            (LiteralValue::FValue(x), LiteralValue::IntValue(y)) => Result::Ok(
                LiteralValue::FValue(x.mul_dec(&Dec::from_i64(*y))),
            ),
            _ => LiteralValue::not_implemented_error(TokenType::Star, left, right),
        }
    }

    /// Applies `/`: any zero divisor is the division-by-zero error.
    pub fn process_slash_operator(left: &LiteralValue, right: &LiteralValue) -> (r: Result<
        LiteralValue,
        String,
    >)
        requires
            left.wf(),
            right.wf(),
        ensures
            res_view(r) == slash_spec(vview(*left), vview(*right)),
            r matches Result::Ok(v) ==> v.wf(),
    {
        let zero_divisor = match right {
            LiteralValue::IntValue(y) => *y == 0,
            LiteralValue::FValue(d) => d.m == 0,
            _ => false,
        };
        if zero_divisor {
            let mut msg = String::new();
            msg.append("Division by 0");
            return Result::Err(msg);
        }
        match (left, right) {
            (LiteralValue::IntValue(x), LiteralValue::IntValue(y)) => {
                let q = match x.checked_div(*y) {
                    Option::Some(q) => q,
                    Option::None => i64::MIN,
                };
                Result::Ok(LiteralValue::IntValue(q))
            },
            (LiteralValue::FValue(x), LiteralValue::FValue(y)) => Result::Ok(
                LiteralValue::FValue(x.div_dec(y)),
            ),
            (LiteralValue::IntValue(x), LiteralValue::FValue(y)) => Result::Ok(
                LiteralValue::FValue(Dec::from_i64(*x).div_dec(y)),
            ),
            (LiteralValue::FValue(x), LiteralValue::IntValue(y)) => {
                let yd = Dec::from_i64(*y);
                proof {
                    crate::dec::lemma_canon_nonzero(*y as int, 0);
                }
                Result::Ok(LiteralValue::FValue(x.div_dec(&yd)))
            },
            _ => LiteralValue::not_implemented_error(TokenType::Slash, left, right),
        }
    }

    /// Applies a comparison operator (`<`, `<=`, `>`, `>=`).
    pub fn process_comparison_operator(op: TokenType, left: &LiteralValue, right: &LiteralValue) -> (r:
        Result<LiteralValue, String>)
        requires
            left.wf(),
            right.wf(),
            op == TokenType::Less || op == TokenType::LessEqual || op == TokenType::Greater || op
                == TokenType::GreaterEqual,
        ensures
            res_view(r) == compare_spec(op, vview(*left), vview(*right)),
            r matches Result::Ok(v) ==> v.wf(),
    {
        let comparable = match (left, right) {
            (LiteralValue::IntValue(_), LiteralValue::IntValue(_)) => true,
            (LiteralValue::FValue(_), LiteralValue::FValue(_)) => true,
            (LiteralValue::IntValue(_), LiteralValue::FValue(_)) => true,
            (LiteralValue::FValue(_), LiteralValue::IntValue(_)) => true,
            (LiteralValue::StringValue(_), LiteralValue::StringValue(_)) => true,
            _ => false,
        };
        if !comparable {
            return LiteralValue::not_implemented_error(op, left, right);
        }
        let outcome: bool = match op {
            TokenType::Less => Self::lt_value(left, right),
            TokenType::Greater => Self::lt_value(right, left),
            TokenType::LessEqual => !Self::lt_value(right, left),
            _ => !Self::lt_value(left, right),
        };
        if outcome {
            Result::Ok(LiteralValue::True)
        } else {
            Result::Ok(LiteralValue::False)
        }
    }

    /// The strict comparison of two comparable values.
    fn lt_value(left: &LiteralValue, right: &LiteralValue) -> (r: bool)
        requires
            left.wf(),
            right.wf(),
            lt_value_spec(vview(*left), vview(*right)) is Some,
        ensures
            r == lt_value_spec(vview(*left), vview(*right))->Some_0,
    {
        match (left, right) {
            (LiteralValue::IntValue(x), LiteralValue::IntValue(y)) => *x < *y,
            (LiteralValue::FValue(x), LiteralValue::FValue(y)) => x.lt_dec(y),
            (LiteralValue::IntValue(x), LiteralValue::FValue(y)) => {
                let xd = Dec::from_i64(*x);
                xd.lt_dec(y)
            },
            (LiteralValue::FValue(x), LiteralValue::IntValue(y)) => {
                let yd = Dec::from_i64(*y);
                x.lt_dec(&yd)
            },
            (LiteralValue::StringValue(x), LiteralValue::StringValue(y)) => {
                let xv = str_to_chars(x.as_str());
                let yv = str_to_chars(y.as_str());
                chars_lt(&xv, &yv)
            },
            _ => false,
        }
    }
}

/// Promotion: an integer and a decimal mix to a decimal under each of the
/// four arithmetic operators (for division, when the divisor is not zero).
pub proof fn lemma_arithmetic_promotion(x: i64, d: Dec)
    ensures
        plus_spec(VModel::Int(x), VModel::F(d)) matches Result::Ok(VModel::F(_)),
        plus_spec(VModel::F(d), VModel::Int(x)) matches Result::Ok(VModel::F(_)),
        minus_spec(VModel::Int(x), VModel::F(d)) matches Result::Ok(VModel::F(_)),
        minus_spec(VModel::F(d), VModel::Int(x)) matches Result::Ok(VModel::F(_)),
        star_spec(VModel::Int(x), VModel::F(d)) matches Result::Ok(VModel::F(_)),
        star_spec(VModel::F(d), VModel::Int(x)) matches Result::Ok(VModel::F(_)),
        d.m != 0 ==> slash_spec(VModel::Int(x), VModel::F(d)) matches Result::Ok(VModel::F(_)),
        x != 0 ==> slash_spec(VModel::F(d), VModel::Int(x)) matches Result::Ok(VModel::F(_)),
{
}

/// Totality of `+` on strings: with a string on either side, `+` always
/// succeeds and concatenates the display forms.
pub proof fn lemma_plus_string_total(v: VModel, s: Seq<char>)
    ensures
        plus_spec(VModel::Str(s), v) == Result::<VModel, Seq<char>>::Ok(
            VModel::Str(s + vchars(v)),
        ),
        plus_spec(v, VModel::Str(s)) == Result::<VModel, Seq<char>>::Ok(
            VModel::Str(vchars(v) + s),
        ),
{
}

/// Division by integer zero or by decimal zero is the division-by-zero
/// error, whatever the dividend.
pub proof fn lemma_division_by_zero(a: VModel, b: VModel)
    requires
        b == VModel::Int(0) || (b matches VModel::F(d) && d.m == 0),
    ensures
        slash_spec(a, b) == Result::<VModel, Seq<char>>::Err("Division by 0"@),
{
}

} // verus!
