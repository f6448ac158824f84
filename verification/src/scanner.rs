//! The lexer: source text to a token stream, with line-attributed,
//! accumulated errors.
//!
//! Scanning is measured against `m_scan`, a pure function from a position
//! and line counter to the tokens and error messages of the rest of the
//! input.  Number literals with a fractional part become exact decimals;
//! an integer literal beyond the signed 64-bit range, or a fractional
//! literal with more than thirty-eight significant digits or a million
//! fractional digits, is a parse error.

use vstd::prelude::*;

verus! {

use vstd::string::StringExecFns;

use crate::dec::{Dec, canon_spec, pow10};
use crate::strutil::{chars_to_string, digits_of, str_to_chars, u64_digits};
use crate::token::{LiteralValue, Token, TokenType};

/// The ghost view of a token literal.
pub ghost enum LitModel {
    I(i64),
    F(Dec),
    S(Seq<char>),
}

/// The ghost view of a token.
pub ghost struct TokModel {
    pub kind: TokenType,
    pub lexeme: Seq<char>,
    pub lit: Option<LitModel>,
    pub line: nat,
}

/// The view of a token.
pub open spec fn tok_view(t: Token) -> TokModel {
    TokModel {
        kind: t.token_type,
        lexeme: t.lexeme@,
        lit: match t.literal {
            Option::None => Option::None,
            Option::Some(LiteralValue::IntValue(i)) => Option::Some(LitModel::I(i)),
            Option::Some(LiteralValue::FValue(d)) => Option::Some(LitModel::F(d)),
            Option::Some(LiteralValue::StringValue(s)) => Option::Some(LitModel::S(s@)),
        },
        line: t.line as nat,
    }
}

/// A decimal digit.
pub open spec fn is_digit_c(c: char) -> bool {
    48 <= c as u32 <= 57
}

/// A letter or underscore.
pub open spec fn is_alpha_c(c: char) -> bool {
    (97 <= c as u32 <= 122) || (65 <= c as u32 <= 90) || c == '_'
}

/// A letter, digit or underscore.
pub open spec fn is_alnum_c(c: char) -> bool {
    is_alpha_c(c) || is_digit_c(c)
}

/// The numeric value of a digit character.
pub open spec fn digit_of(c: char) -> nat {
    if is_digit_c(c) {
        (c as u32 - 48) as nat
    } else {
        0
    }
}

/// The value of a digit string, most significant first.
pub open spec fn digits_val(ds: Seq<char>) -> nat
    decreases ds.len(),
{
    if ds.len() == 0 {
        0
    } else {
        digits_val(ds.drop_last()) * 10 + digit_of(ds.last())
    }
}

/// The line counter advanced by one; pinned at the greatest `usize`.
pub open spec fn bump_line(l: nat) -> nat {
    if l < usize::MAX {
        l + 1
    } else {
        l
    }
}

/// The first position at or after `i` that does not hold a digit.
pub open spec fn scan_digits_end(src: Seq<char>, i: int) -> int
    decreases src.len() - i,
{
    if i < 0 || i >= src.len() || !is_digit_c(src[i]) {
        i
    } else {
        scan_digits_end(src, i + 1)
    }
}

/// The first position at or after `i` that does not hold an identifier
/// character.
pub open spec fn scan_ident_end(src: Seq<char>, i: int) -> int
    decreases src.len() - i,
{
    if i < 0 || i >= src.len() || !is_alnum_c(src[i]) {
        i
    } else {
        scan_ident_end(src, i + 1)
    }
}

/// The first position at or after `i` holding a newline, or the end.
pub open spec fn scan_line_end(src: Seq<char>, i: int) -> int
    decreases src.len() - i,
{
    if i < 0 || i >= src.len() || src[i] == '\n' {
        i
    } else {
        scan_line_end(src, i + 1)
    }
}

/// Looks for the end of a block comment from `i`: the position after the
/// closing pair and the line counter, or no position if the input ends
/// first.
pub open spec fn scan_block_end(src: Seq<char>, i: int, line: nat) -> (Option<int>, nat)
    decreases src.len() - i,
{
    if i < 0 || i >= src.len() {
        (Option::None, line)
    } else if src[i] == '*' && i + 1 < src.len() && src[i + 1] == '/' {
        (Option::Some(i + 2), line)
    } else {
        scan_block_end(src, i + 1, if src[i] == '\n' {
            bump_line(line)
        } else {
            line
        })
    }
}

/// Looks for the closing quote of a string from `i`: its position and the
/// line counter, or no position if the input ends first.
pub open spec fn scan_string_end(src: Seq<char>, i: int, line: nat) -> (Option<int>, nat)
    decreases src.len() - i,
{
    if i < 0 || i >= src.len() {
        (Option::None, line)
    } else if src[i] == '"' {
        (Option::Some(i), line)
    } else {
        scan_string_end(src, i + 1, if src[i] == '\n' {
            bump_line(line)
        } else {
            line
        })
    }
}

/// The keyword kind of an identifier lexeme, or `Identifier`.
pub open spec fn keyword_kind(s: Seq<char>) -> TokenType {
    if s == "and"@ {
        TokenType::And
    } else if s == "class"@ {
        TokenType::Class
    } else if s == "else"@ {
        TokenType::Else
    } else if s == "false"@ {
        TokenType::False
    } else if s == "for"@ {
        TokenType::For
    } else if s == "fun"@ {
        TokenType::Fun
    } else if s == "if"@ {
        TokenType::If
    } else if s == "nil"@ {
        TokenType::Nil
    } else if s == "or"@ {
        TokenType::Or
    } else if s == "print"@ {
        TokenType::Print
    } else if s == "return"@ {
        TokenType::Return
    } else if s == "super"@ {
        TokenType::Super
    } else if s == "this"@ {
        TokenType::This
    } else if s == "true"@ {
        TokenType::True
    } else if s == "var"@ {
        TokenType::Var
    } else if s == "while"@ {
        TokenType::While
    } else {
        TokenType::Identifier
    }
}

/// The cap on fractional digits of a numeric literal.
pub const MAX_FRACTION_DIGITS: usize = 1_000_000;

/// The message for an unterminated block comment.
pub open spec fn unterminated_comment_chars(line: nat) -> Seq<char> {
    "Unterminated multiline comment at line "@ + digits_of(line)
}

/// The message for a stray block comment terminator.
pub open spec fn extra_comment_chars(line: nat) -> Seq<char> {
    "Extra multiline ending comment at line "@ + digits_of(line)
}

/// The message for an unterminated string.
pub open spec fn unterminated_string_chars(line: nat) -> Seq<char> {
    "Unterminated string at line "@ + digits_of(line)
}

/// The message for an integer literal out of range.
pub open spec fn int_parse_chars(line: nat) -> Seq<char> {
    "Failed to parse the int at line: "@ + digits_of(line)
}

/// The message for a fractional literal out of range.
pub open spec fn float_parse_chars(line: nat) -> Seq<char> {
    "Failed to parse the float at line: "@ + digits_of(line)
}

/// The message for a character outside the language.
pub open spec fn unexpected_char_chars(c: char, line: nat) -> Seq<char> {
    "Unexpected character "@ + seq![c] + " at line "@ + digits_of(line)
}

/// The next scan position: `j` when it advances and stays inside the
/// input, else one step forward, clamped to the end.
pub open spec fn next_pos(src: Seq<char>, i: int, j: int) -> int {
    if i < j <= src.len() {
        j
    } else if i + 1 <= src.len() {
        i + 1
    } else {
        src.len() as int
    }
}

/// A token of `kind` cut from `src[i..j]` on `line`, with no literal.
pub open spec fn plain_tok(src: Seq<char>, kind: TokenType, i: int, j: int, line: nat) -> TokModel {
    TokModel { kind, lexeme: src.subrange(i, j), lit: Option::None, line }
}

/// What scanning the rest of the input from position `i` on line `line`
/// produces: the tokens before the end-of-file token, the error messages,
/// and the final line count.
pub open spec fn m_scan(src: Seq<char>, i: int, line: nat) -> (Seq<TokModel>, Seq<Seq<char>>, nat)
    decreases src.len() - i, 0int,
{
    if i < 0 || i >= src.len() {
        (Seq::empty(), Seq::empty(), line)
    } else {
        let c = src[i];
        if c == '(' {
            m_scan_tok(src, TokenType::LeftParen, i, i + 1, line)
        } else if c == ')' {
            m_scan_tok(src, TokenType::RightParen, i, i + 1, line)
        } else if c == '{' {
            m_scan_tok(src, TokenType::LeftBrace, i, i + 1, line)
        } else if c == '}' {
            m_scan_tok(src, TokenType::RightBrace, i, i + 1, line)
        } else if c == ',' {
            m_scan_tok(src, TokenType::Comma, i, i + 1, line)
        } else if c == '.' {
            m_scan_tok(src, TokenType::Dot, i, i + 1, line)
        } else if c == '-' {
            m_scan_tok(src, TokenType::Minus, i, i + 1, line)
        } else if c == '+' {
            m_scan_tok(src, TokenType::Plus, i, i + 1, line)
        } else if c == ';' {
            m_scan_tok(src, TokenType::Semicolon, i, i + 1, line)
        } else if c == '*' {
            if i + 1 < src.len() && src[i + 1] == '/' {
                m_scan_err(src, extra_comment_chars(line), i + 2, line)
            } else {
                m_scan_tok(src, TokenType::Star, i, i + 1, line)
            }
        } else if c == '!' {
            if i + 1 < src.len() && src[i + 1] == '=' {
                m_scan_tok(src, TokenType::BangEqual, i, i + 2, line)
            } else {
                m_scan_tok(src, TokenType::Bang, i, i + 1, line)
            }
        } else if c == '=' {
            if i + 1 < src.len() && src[i + 1] == '=' {
                m_scan_tok(src, TokenType::EqualEqual, i, i + 2, line)
            } else {
                m_scan_tok(src, TokenType::Equal, i, i + 1, line)
            }
        } else if c == '<' {
            if i + 1 < src.len() && src[i + 1] == '=' {
                m_scan_tok(src, TokenType::LessEqual, i, i + 2, line)
            } else {
                m_scan_tok(src, TokenType::Less, i, i + 1, line)
            }
        } else if c == '>' {
            if i + 1 < src.len() && src[i + 1] == '=' {
                m_scan_tok(src, TokenType::GreaterEqual, i, i + 2, line)
            } else {
                m_scan_tok(src, TokenType::Greater, i, i + 1, line)
            }
        } else if c == '/' {
            if i + 1 < src.len() && src[i + 1] == '/' {
                let j = scan_line_end(src, i + 2);
                m_scan(src, next_pos(src, i, j), line)
            } else if i + 1 < src.len() && src[i + 1] == '*' {
                let (close, line2) = scan_block_end(src, i + 2, line);
                match close {
                    Option::Some(j) => m_scan(src, next_pos(src, i, j), line2),
                    Option::None => m_scan_err(
                        src,
                        unterminated_comment_chars(line2),
                        src.len() as int,
                        line2,
                    ),
                }
            } else {
                m_scan_tok(src, TokenType::Slash, i, i + 1, line)
            }
        } else if c == ' ' || c == '\r' || c == '\t' {
            m_scan(src, i + 1, line)
        } else if c == '\n' {
            m_scan(src, i + 1, bump_line(line))
        } else if c == '"' {
            let (close, line2) = scan_string_end(src, i + 1, line);
            match close {
                Option::Some(j) => {
                    let tok = TokModel {
                        kind: TokenType::String,
                        lexeme: src.subrange(i, j + 1),
                        lit: Option::Some(LitModel::S(src.subrange(i + 1, j))),
                        line: line2,
                    };
                    let (ts, es, lf) = m_scan(src, next_pos(src, i, j + 1), line2);
                    (seq![tok] + ts, es, lf)
                },
                Option::None => m_scan_err(
                    src,
                    unterminated_string_chars(line2),
                    src.len() as int,
                    line2,
                ),
            }
        } else if is_digit_c(c) {
            let j = scan_digits_end(src, i + 1);
            if j < src.len() && src[j] == '.' && j + 1 < src.len() && is_digit_c(src[j + 1]) {
                let j2 = scan_digits_end(src, j + 1);
                let ds = src.subrange(i, j) + src.subrange(j + 1, j2);
                if digits_val(ds) >= pow10(38) || j2 - (j + 1) > MAX_FRACTION_DIGITS as int {
                    m_scan_err(src, float_parse_chars(line), next_pos(src, i, j2), line)
                } else {
                    let d = canon_spec(digits_val(ds) as int, -(j2 - (j + 1)));
                    let tok = TokModel {
                        kind: TokenType::Number,
                        lexeme: src.subrange(i, j2),
                        lit: Option::Some(LitModel::F(d)),
                        line,
                    };
                    let (ts, es, lf) = m_scan(src, next_pos(src, i, j2), line);
                    (seq![tok] + ts, es, lf)
                }
            } else {
                let ds = src.subrange(i, j);
                if digits_val(ds) > i64::MAX as nat {
                    m_scan_err(src, int_parse_chars(line), next_pos(src, i, j), line)
                } else {
                    let tok = TokModel {
                        kind: TokenType::Number,
                        lexeme: src.subrange(i, j),
                        lit: Option::Some(LitModel::I(digits_val(ds) as i64)),
                        line,
                    };
                    let (ts, es, lf) = m_scan(src, next_pos(src, i, j), line);
                    (seq![tok] + ts, es, lf)
                }
            }
        } else if is_alpha_c(c) {
            let j = scan_ident_end(src, i + 1);
            let tok = plain_tok(src, keyword_kind(src.subrange(i, j)), i, j, line);
            let (ts, es, lf) = m_scan(src, next_pos(src, i, j), line);
            (seq![tok] + ts, es, lf)
        } else {
            m_scan_err(src, unexpected_char_chars(c, line), i + 1, line)
        }
    }
}

/// One plain token at `[i..j)`, then the rest.
pub open spec fn m_scan_tok(src: Seq<char>, kind: TokenType, i: int, j: int, line: nat) -> (
    Seq<TokModel>,
    Seq<Seq<char>>,
    nat,
)
    decreases src.len() - next_pos(src, i, j), 1int,
{
    let tok = plain_tok(src, kind, i, j, line);
    let (ts, es, lf) = m_scan(src, next_pos(src, i, j), line);
    (seq![tok] + ts, es, lf)
}

/// One error message, then the rest from position `j`.
pub open spec fn m_scan_err(src: Seq<char>, msg: Seq<char>, j: int, line: nat) -> (
    Seq<TokModel>,
    Seq<Seq<char>>,
    nat,
)
    decreases src.len() - (if 0 <= j <= src.len() {
        j
    } else {
        src.len() as int
    }), 1int,
{
    let (ts, es, lf) = m_scan(src, if 0 <= j <= src.len() {
        j
    } else {
        src.len() as int
    }, line);
    (ts, seq![msg] + es, lf)
}


/// Whether `c` is a decimal digit.
fn is_digit_ch(c: char) -> (r: bool)
    ensures
        r == is_digit_c(c),
{
    let u = c as u32;
    48 <= u && u <= 57
}

/// Whether `c` begins an identifier.
fn is_alpha_ch(c: char) -> (r: bool)
    ensures
        r == is_alpha_c(c),
{
    let u = c as u32;
    (97 <= u && u <= 122) || (65 <= u && u <= 90) || c == '_'
}

/// Whether `c` continues an identifier.
fn is_alnum_ch(c: char) -> (r: bool)
    ensures
        r == is_alnum_c(c),
{
    is_alpha_ch(c) || is_digit_ch(c)
}

/// The numeric value of a digit character.
fn digit_val_ch(c: char) -> (r: u64)
    requires
        is_digit_c(c),
    ensures
        r as nat == digit_of(c),
        r < 10,
{
    (c as u32 - 48) as u64
}

/// The copy of `src[i..j]`.
fn subrange_chars(src: &Vec<char>, i: usize, j: usize) -> (r: Vec<char>)
    requires
        i <= j <= src@.len(),
    ensures
        r@ == src@.subrange(i as int, j as int),
{
    let mut r: Vec<char> = Vec::new();
    let mut k = i;
    while k < j
        invariant
            i <= k <= j <= src@.len(),
            r@ == src@.subrange(i as int, k as int),
        decreases j - k,
    {
        r.push(src[k]);
        k = k + 1;
        assert(r@ =~= src@.subrange(i as int, k as int));
    }
    assert(r@ =~= src@.subrange(i as int, j as int));
    r
}

/// The end of a run of digits.
#[verifier::loop_isolation(false)]
fn digits_end_exec(src: &Vec<char>, i: usize) -> (r: usize)
    requires
        i <= src@.len(),
    ensures
        i <= r <= src@.len(),
        r as int == scan_digits_end(src@, i as int),
{
    let mut j = i;
    while j < src.len() && is_digit_ch(src[j])
        invariant
            i <= j <= src@.len(),
            scan_digits_end(src@, i as int) == scan_digits_end(src@, j as int),
        decreases src@.len() - j,
    {
        proof {
            assert(scan_digits_end(src@, j as int) == scan_digits_end(src@, j as int + 1));
        }
        j = j + 1;
    }
    proof {
        assert(scan_digits_end(src@, j as int) == j as int);
    }
    j
}

/// The end of a run of identifier characters.
#[verifier::loop_isolation(false)]
fn ident_end_exec(src: &Vec<char>, i: usize) -> (r: usize)
    requires
        i <= src@.len(),
    ensures
        i <= r <= src@.len(),
        r as int == scan_ident_end(src@, i as int),
{
    let mut j = i;
    while j < src.len() && is_alnum_ch(src[j])
        invariant
            i <= j <= src@.len(),
            scan_ident_end(src@, i as int) == scan_ident_end(src@, j as int),
        decreases src@.len() - j,
    {
        proof {
            assert(scan_ident_end(src@, j as int) == scan_ident_end(src@, j as int + 1));
        }
        j = j + 1;
    }
    proof {
        assert(scan_ident_end(src@, j as int) == j as int);
    }
    j
}

/// The position of the next newline, or the end.
#[verifier::loop_isolation(false)]
fn line_end_exec(src: &Vec<char>, i: usize) -> (r: usize)
    requires
        i <= src@.len(),
    ensures
        i <= r <= src@.len(),
        r as int == scan_line_end(src@, i as int),
{
    let mut j = i;
    while j < src.len() && src[j] != '\n'
        invariant
            i <= j <= src@.len(),
            scan_line_end(src@, i as int) == scan_line_end(src@, j as int),
        decreases src@.len() - j,
    {
        proof {
            assert(scan_line_end(src@, j as int) == scan_line_end(src@, j as int + 1));
        }
        j = j + 1;
    }
    proof {
        assert(scan_line_end(src@, j as int) == j as int);
    }
    j
}

/// Finds the end of a block comment.
#[verifier::loop_isolation(false)]
fn block_end_exec(src: &Vec<char>, i: usize, line: usize) -> (r: (Option<usize>, usize))
    requires
        i <= src@.len(),
    ensures
        ({
            let (mo, ml) = scan_block_end(src@, i as int, line as nat);
            &&& (match r.0 {
                Option::Some(p) => mo == Option::Some(p as int) && i < p <= src@.len(),
                Option::None => mo is None,
            })
            &&& r.1 as nat == ml
            &&& r.1 >= line
        }),
{
    let mut j = i;
    let mut l = line;
    loop
        invariant
            i <= j <= src@.len(),
            l >= line,
            scan_block_end(src@, i as int, line as nat) == scan_block_end(src@, j as int, l as nat),
        decreases src@.len() - j,
    {
        if j >= src.len() {
            return (Option::None, l);
        }
        if src[j] == '*' && j + 1 < src.len() && src[j + 1] == '/' {
            return (Option::Some(j + 2), l);
        }
        proof {
            assert(scan_block_end(src@, j as int, l as nat) == scan_block_end(
                src@,
                j as int + 1,
                if src@[j as int] == '\n' {
                    bump_line(l as nat)
                } else {
                    l as nat
                },
            ));
        }
        if src[j] == '\n' {
            if l < usize::MAX {
                l = l + 1;
            }
        }
        j = j + 1;
    }
}

/// Finds the closing quote of a string.
#[verifier::loop_isolation(false)]
fn string_end_exec(src: &Vec<char>, i: usize, line: usize) -> (r: (Option<usize>, usize))
    requires
        i <= src@.len(),
    ensures
        ({
            let (mo, ml) = scan_string_end(src@, i as int, line as nat);
            &&& (match r.0 {
                Option::Some(p) => mo == Option::Some(p as int) && i <= p < src@.len(),
                Option::None => mo is None,
            })
            &&& r.1 as nat == ml
            &&& r.1 >= line
        }),
{
    let mut j = i;
    let mut l = line;
    loop
        invariant
            i <= j <= src@.len(),
            l >= line,
            scan_string_end(src@, i as int, line as nat) == scan_string_end(
                src@,
                j as int,
                l as nat,
            ),
        decreases src@.len() - j,
    {
        if j >= src.len() {
            return (Option::None, l);
        }
        if src[j] == '"' {
            return (Option::Some(j), l);
        }
        proof {
            assert(scan_string_end(src@, j as int, l as nat) == scan_string_end(
                src@,
                j as int + 1,
                if src@[j as int] == '\n' {
                    bump_line(l as nat)
                } else {
                    l as nat
                },
            ));
        }
        if src[j] == '\n' {
            if l < usize::MAX {
                l = l + 1;
            }
        }
        j = j + 1;
    }
}

/// Extending a digit string by one digit multiplies its value by ten.
proof fn lemma_digits_val_step(ds: Seq<char>, k: int)
    requires
        0 <= k < ds.len(),
    ensures
        digits_val(ds.take(k + 1)) == digits_val(ds.take(k)) * 10 + digit_of(ds[k]),
{
    let p = ds.take(k + 1);
    assert(p.drop_last() =~= ds.take(k));
    assert(p.last() == ds[k]);
}

/// A digit string is worth at least any of its prefixes.
proof fn lemma_digits_val_prefix(ds: Seq<char>, k: int)
    requires
        0 <= k <= ds.len(),
    ensures
        digits_val(ds) >= digits_val(ds.take(k)),
    decreases ds.len() - k,
{
    if k < ds.len() {
        lemma_digits_val_step(ds, k);
        lemma_digits_val_prefix(ds, k + 1);
        assert(digits_val(ds.take(k + 1)) >= digits_val(ds.take(k))) by (nonlinear_arith)
            requires
                digits_val(ds.take(k + 1)) == digits_val(ds.take(k)) * 10 + digit_of(ds[k]),
        ;
    } else {
        assert(ds.take(k) =~= ds);
    }
}

/// The cap on significant digits, as a value.
const DIGIT_CAP: u128 = 10_000_000_000_000_000_000_000_000_000_000_000_000;

/// Reads the value of a digit string; a value of thirty-eight digits or
/// more is refused.
fn parse_digits(ds: &Vec<char>) -> (r: Option<u128>)
    requires
        forall|k: int| 0 <= k < ds@.len() ==> is_digit_c(#[trigger] ds@[k]),
    ensures
        (r is None) == (digits_val(ds@) >= pow10(38)),
        r matches Option::Some(n) ==> n as nat == digits_val(ds@),
{
    proof {
        crate::dec::lemma_pow10_37_38();
    }
    let mut n: u128 = 0;
    let mut k: usize = 0;
    proof {
        assert(ds@.take(0) =~= Seq::<char>::empty());
    }
    while k < ds.len()
        invariant
            k <= ds@.len(),
            n as nat == digits_val(ds@.take(k as int)),
            (n as nat) < pow10(38),
            pow10(37) == DIGIT_CAP as nat,
            pow10(38) == 10 * DIGIT_CAP as nat,
            forall|k2: int| 0 <= k2 < ds@.len() ==> is_digit_c(#[trigger] ds@[k2]),
        decreases ds@.len() - k,
    {
        if n >= DIGIT_CAP {
            proof {
                lemma_digits_val_step(ds@, k as int);
                assert(digits_val(ds@.take(k as int + 1)) >= 10 * DIGIT_CAP as nat)
                    by (nonlinear_arith)
                    requires
                        digits_val(ds@.take(k as int + 1)) == digits_val(ds@.take(k as int)) * 10
                            + digit_of(ds@[k as int]),
                        digits_val(ds@.take(k as int)) >= DIGIT_CAP as nat,
                ;
                lemma_digits_val_prefix(ds@, k as int + 1);
            }
            return Option::None;
        }
        let d = digit_val_ch(ds[k]);
        proof {
            lemma_digits_val_step(ds@, k as int);
        }
        n = n * 10 + (d as u128);
        k = k + 1;
    }
    proof {
        assert(ds@.take(k as int) =~= ds@);
    }
    Option::Some(n)
}

/// The keyword kind of a lexeme, or `Identifier`.
fn keyword_kind_exec(lexeme: &str) -> (r: TokenType)
    ensures
        r == keyword_kind(lexeme@),
{
    if crate::strutil::str_eq(lexeme, "and") {
        TokenType::And
    } else if crate::strutil::str_eq(lexeme, "class") {
        TokenType::Class
    } else if crate::strutil::str_eq(lexeme, "else") {
        TokenType::Else
    } else if crate::strutil::str_eq(lexeme, "false") {
        TokenType::False
    } else if crate::strutil::str_eq(lexeme, "for") {
        TokenType::For
    } else if crate::strutil::str_eq(lexeme, "fun") {
        TokenType::Fun
    } else if crate::strutil::str_eq(lexeme, "if") {
        TokenType::If
    } else if crate::strutil::str_eq(lexeme, "nil") {
        TokenType::Nil
    } else if crate::strutil::str_eq(lexeme, "or") {
        TokenType::Or
    } else if crate::strutil::str_eq(lexeme, "print") {
        TokenType::Print
    } else if crate::strutil::str_eq(lexeme, "return") {
        TokenType::Return
    } else if crate::strutil::str_eq(lexeme, "super") {
        TokenType::Super
    } else if crate::strutil::str_eq(lexeme, "this") {
        TokenType::This
    } else if crate::strutil::str_eq(lexeme, "true") {
        TokenType::True
    } else if crate::strutil::str_eq(lexeme, "var") {
        TokenType::Var
    } else if crate::strutil::str_eq(lexeme, "while") {
        TokenType::While
    } else {
        TokenType::Identifier
    }
}

/// Appends the decimal rendering of `line` to `msg`.
pub(crate) fn append_line_number_exec(msg: &mut String, line: usize)
    ensures
        final(msg)@ == old(msg)@ + digits_of(line as nat),
{
    let ds = u64_digits(line as u64);
    let dstr = chars_to_string(&ds);
    msg.append(dstr.as_str());
}

/// The scanner: the source as characters, the tokens produced so far, and
/// the window position.
#[derive(Debug)]
pub struct Scanner {
    pub source: Vec<char>,
    pub tokens: Vec<Token>,
    pub start: usize,
    pub current: usize,
    pub line: usize,
}

/// The sequence of error messages joined by newlines.
pub open spec fn join_chars(msgs: Seq<Seq<char>>) -> Seq<char>
    decreases msgs.len(),
{
    if msgs.len() == 0 {
        Seq::empty()
    } else if msgs.len() == 1 {
        msgs[0]
    } else {
        msgs[0] + seq!['\n'] + join_chars(msgs.subrange(1, msgs.len() as int))
    }
}

impl Scanner {
    /// Structural sanity: the window is inside the source and every token
    /// made so far is well formed.
    pub open spec fn wf(&self) -> bool {
        &&& self.current <= self.source@.len()
        &&& self.line >= 1
        &&& crate::token::token_stream_ok(self.tokens@)
    }

    /// A scanner at the start of `source`.
    pub fn new(source: &str) -> (r: Scanner)
        ensures
            r.wf(),
            r.source@ == source@,
            r.tokens@.len() == 0,
            r.current == 0,
            r.line == 1,
    {
        Scanner {
            source: str_to_chars(source),
            tokens: Vec::new(),
            start: 0,
            current: 0,
            line: 1,
        }
    }
}


impl Scanner {
    /// The views of the tokens pushed past the first `n`.
    pub open spec fn new_tok_views(&self, n: int) -> Seq<TokModel> {
        self.tokens@.map_values(|t: Token| tok_view(t)).skip(n)
    }

    /// Pushes a token without a literal, cut from `[current..j)`.
    fn add_plain(&mut self, kind: TokenType, j: usize)
        requires
            old(self).wf(),
            old(self).current < j <= old(self).source@.len(),
            kind != TokenType::Number,
            kind != TokenType::String,
        ensures
            final(self).wf(),
            final(self).source == old(self).source,
            final(self).line == old(self).line,
            final(self).start == old(self).start,
            final(self).current == j,
            final(self).tokens@.len() == old(self).tokens@.len() + 1,
            forall|k: int|
                0 <= k < old(self).tokens@.len() ==> final(self).tokens@[k] == old(
                    self,
                ).tokens@[k],
            final(self).new_tok_views(old(self).tokens@.len() as int) =~= seq![
                plain_tok(
                    old(self).source@,
                    kind,
                    old(self).current as int,
                    j as int,
                    old(self).line as nat,
                ),
            ],
    {
        let lex_chars = subrange_chars(&self.source, self.current, j);
        let lexeme = chars_to_string(&lex_chars);
        let line = self.line;
        self.tokens.push(Token { token_type: kind, lexeme, literal: Option::None, line });
        self.current = j;
    }

    /// Scans one lexeme: skips blanks and comments, pushes at most one
    /// token, or reports one error; always advances.
    #[verifier::rlimit(100)]
    #[verifier::spinoff_prover]
    pub(crate) fn scan_token(&mut self) -> (r: Result<(), String>)
        requires
            old(self).wf(),
            old(self).current < old(self).source@.len(),
        ensures
            final(self).wf(),
            final(self).source == old(self).source,
            final(self).current > old(self).current,
            final(self).current <= final(self).source@.len(),
            final(self).tokens@.len() >= old(self).tokens@.len(),
            forall|k: int|
                0 <= k < old(self).tokens@.len() ==> final(self).tokens@[k] == old(
                    self,
                ).tokens@[k],
            ({
                let src = old(self).source@;
                let full = m_scan(src, old(self).current as int, old(self).line as nat);
                let rest = m_scan(src, final(self).current as int, final(self).line as nat);
                let delta = final(self).new_tok_views(old(self).tokens@.len() as int);
                &&& full.0 == delta + rest.0
                &&& full.1 == (match r {
                    Result::Ok(()) => Seq::<Seq<char>>::empty(),
                    Result::Err(m) => seq![m@],
                }) + rest.1
                &&& full.2 == rest.2
            }),
    {
        let ghost src = self.source@;
        let ghost c0 = self.current as int;
        let ghost l0 = self.line as nat;
        let ghost n0 = self.tokens@.len() as int;
        let i = self.current;
        let total = self.source.len();
        let c = self.source[i];
        let two = i + 1 < total;
        if c == '(' {
            self.add_plain(TokenType::LeftParen, i + 1);
            proof {
                lemma_delta_tok(*self, src, TokenType::LeftParen, c0, c0 + 1, l0, n0);
                assert(m_scan(src, c0, l0) == m_scan_tok(src, TokenType::LeftParen, c0, c0 + 1, l0));
                assert(next_pos(src, c0, c0 + 1) == c0 + 1);
            }
            Result::Ok(())
        } else if c == ')' {
            self.add_plain(TokenType::RightParen, i + 1);
            proof {
                lemma_delta_tok(*self, src, TokenType::RightParen, c0, c0 + 1, l0, n0);
                assert(m_scan(src, c0, l0) == m_scan_tok(src, TokenType::RightParen, c0, c0 + 1, l0));
                assert(next_pos(src, c0, c0 + 1) == c0 + 1);
            }
            Result::Ok(())
        } else if c == '{' {
            self.add_plain(TokenType::LeftBrace, i + 1);
            proof {
                lemma_delta_tok(*self, src, TokenType::LeftBrace, c0, c0 + 1, l0, n0);
                assert(m_scan(src, c0, l0) == m_scan_tok(src, TokenType::LeftBrace, c0, c0 + 1, l0));
                assert(next_pos(src, c0, c0 + 1) == c0 + 1);
            }
            Result::Ok(())
        } else if c == '}' {
            self.add_plain(TokenType::RightBrace, i + 1);
            proof {
                lemma_delta_tok(*self, src, TokenType::RightBrace, c0, c0 + 1, l0, n0);
                assert(m_scan(src, c0, l0) == m_scan_tok(src, TokenType::RightBrace, c0, c0 + 1, l0));
                assert(next_pos(src, c0, c0 + 1) == c0 + 1);
            }
            Result::Ok(())
        } else if c == ',' {
            self.add_plain(TokenType::Comma, i + 1);
            proof {
                lemma_delta_tok(*self, src, TokenType::Comma, c0, c0 + 1, l0, n0);
                assert(m_scan(src, c0, l0) == m_scan_tok(src, TokenType::Comma, c0, c0 + 1, l0));
                assert(next_pos(src, c0, c0 + 1) == c0 + 1);
            }
            Result::Ok(())
        } else if c == '.' {
            self.add_plain(TokenType::Dot, i + 1);
            proof {
                lemma_delta_tok(*self, src, TokenType::Dot, c0, c0 + 1, l0, n0);
                assert(m_scan(src, c0, l0) == m_scan_tok(src, TokenType::Dot, c0, c0 + 1, l0));
                assert(next_pos(src, c0, c0 + 1) == c0 + 1);
            }
            Result::Ok(())
        } else if c == '-' {
            self.add_plain(TokenType::Minus, i + 1);
            proof {
                lemma_delta_tok(*self, src, TokenType::Minus, c0, c0 + 1, l0, n0);
                assert(m_scan(src, c0, l0) == m_scan_tok(src, TokenType::Minus, c0, c0 + 1, l0));
                assert(next_pos(src, c0, c0 + 1) == c0 + 1);
            }
            Result::Ok(())
        } else if c == '+' {
            self.add_plain(TokenType::Plus, i + 1);
            proof {
                lemma_delta_tok(*self, src, TokenType::Plus, c0, c0 + 1, l0, n0);
                assert(m_scan(src, c0, l0) == m_scan_tok(src, TokenType::Plus, c0, c0 + 1, l0));
                assert(next_pos(src, c0, c0 + 1) == c0 + 1);
            }
            Result::Ok(())
        } else if c == ';' {
            self.add_plain(TokenType::Semicolon, i + 1);
            proof {
                lemma_delta_tok(*self, src, TokenType::Semicolon, c0, c0 + 1, l0, n0);
                assert(m_scan(src, c0, l0) == m_scan_tok(src, TokenType::Semicolon, c0, c0 + 1, l0));
                assert(next_pos(src, c0, c0 + 1) == c0 + 1);
            }
            Result::Ok(())
        } else if c == '*' {
            if two && self.source[i + 1] == '/' {
                self.current = i + 2;
                let mut msg = String::new();
                msg.append("Extra multiline ending comment at line ");
                append_line_number_exec(&mut msg, self.line);
                proof {
                    assert(msg@ =~= extra_comment_chars(l0));
                    assert(m_scan(src, c0, l0) == m_scan_err(src, extra_comment_chars(l0), c0 + 2, l0));
                    assert(self.new_tok_views(n0) =~= Seq::<TokModel>::empty());
                    lemma_scan_frame(src, self.current as int, self.line as nat);
                }
                Result::Err(msg)
            } else {
                self.add_plain(TokenType::Star, i + 1);
                proof {
                    lemma_delta_tok(*self, src, TokenType::Star, c0, c0 + 1, l0, n0);
                assert(m_scan(src, c0, l0) == m_scan_tok(src, TokenType::Star, c0, c0 + 1, l0));
                assert(next_pos(src, c0, c0 + 1) == c0 + 1);
                }
                Result::Ok(())
            }
        } else if c == '!' {
            if two && self.source[i + 1] == '=' {
                self.add_plain(TokenType::BangEqual, i + 2);
                proof {
                    lemma_delta_tok(*self, src, TokenType::BangEqual, c0, c0 + 2, l0, n0);
                assert(m_scan(src, c0, l0) == m_scan_tok(src, TokenType::BangEqual, c0, c0 + 2, l0));
                assert(next_pos(src, c0, c0 + 2) == c0 + 2);
                }
            } else {
                self.add_plain(TokenType::Bang, i + 1);
                proof {
                    lemma_delta_tok(*self, src, TokenType::Bang, c0, c0 + 1, l0, n0);
                assert(m_scan(src, c0, l0) == m_scan_tok(src, TokenType::Bang, c0, c0 + 1, l0));
                assert(next_pos(src, c0, c0 + 1) == c0 + 1);
                }
            }
            Result::Ok(())
        } else if c == '=' {
            if two && self.source[i + 1] == '=' {
                self.add_plain(TokenType::EqualEqual, i + 2);
                proof {
                    lemma_delta_tok(*self, src, TokenType::EqualEqual, c0, c0 + 2, l0, n0);
                assert(m_scan(src, c0, l0) == m_scan_tok(src, TokenType::EqualEqual, c0, c0 + 2, l0));
                assert(next_pos(src, c0, c0 + 2) == c0 + 2);
                }
            } else {
                self.add_plain(TokenType::Equal, i + 1);
                proof {
                    lemma_delta_tok(*self, src, TokenType::Equal, c0, c0 + 1, l0, n0);
                assert(m_scan(src, c0, l0) == m_scan_tok(src, TokenType::Equal, c0, c0 + 1, l0));
                assert(next_pos(src, c0, c0 + 1) == c0 + 1);
                }
            }
            Result::Ok(())
        } else if c == '<' {
            if two && self.source[i + 1] == '=' {
                self.add_plain(TokenType::LessEqual, i + 2);
                proof {
                    lemma_delta_tok(*self, src, TokenType::LessEqual, c0, c0 + 2, l0, n0);
                assert(m_scan(src, c0, l0) == m_scan_tok(src, TokenType::LessEqual, c0, c0 + 2, l0));
                assert(next_pos(src, c0, c0 + 2) == c0 + 2);
                }
            } else {
                self.add_plain(TokenType::Less, i + 1);
                proof {
                    lemma_delta_tok(*self, src, TokenType::Less, c0, c0 + 1, l0, n0);
                assert(m_scan(src, c0, l0) == m_scan_tok(src, TokenType::Less, c0, c0 + 1, l0));
                assert(next_pos(src, c0, c0 + 1) == c0 + 1);
                }
            }
            Result::Ok(())
        } else if c == '>' {
            if two && self.source[i + 1] == '=' {
                self.add_plain(TokenType::GreaterEqual, i + 2);
                proof {
                    lemma_delta_tok(*self, src, TokenType::GreaterEqual, c0, c0 + 2, l0, n0);
                assert(m_scan(src, c0, l0) == m_scan_tok(src, TokenType::GreaterEqual, c0, c0 + 2, l0));
                assert(next_pos(src, c0, c0 + 2) == c0 + 2);
                }
            } else {
                self.add_plain(TokenType::Greater, i + 1);
                proof {
                    lemma_delta_tok(*self, src, TokenType::Greater, c0, c0 + 1, l0, n0);
                assert(m_scan(src, c0, l0) == m_scan_tok(src, TokenType::Greater, c0, c0 + 1, l0));
                assert(next_pos(src, c0, c0 + 1) == c0 + 1);
                }
            }
            Result::Ok(())
        } else if c == '/' {
            if two && self.source[i + 1] == '/' {
                let j = line_end_exec(&self.source, i + 2);
                self.current = j;
                proof {
                    assert(self.new_tok_views(n0) =~= Seq::<TokModel>::empty());
                lemma_scan_frame(src, self.current as int, self.line as nat);
                    assert(next_pos(src, c0, j as int) == j as int);
                }
                Result::Ok(())
            } else if two && self.source[i + 1] == '*' {
                let (close, l2) = block_end_exec(&self.source, i + 2, self.line);
                match close {
                    Option::Some(j) => {
                        self.current = j;
                        self.line = l2;
                        proof {
                            assert(self.new_tok_views(n0) =~= Seq::<TokModel>::empty());
                lemma_scan_frame(src, self.current as int, self.line as nat);
                            assert(next_pos(src, c0, j as int) == j as int);
                        }
                        Result::Ok(())
                    },
                    Option::None => {
                        self.current = self.source.len();
                        self.line = l2;
                        let mut msg = String::new();
                        msg.append("Unterminated multiline comment at line ");
                        append_line_number_exec(&mut msg, l2);
                        proof {
                            assert(msg@ =~= unterminated_comment_chars(l2 as nat));
                            assert(m_scan(src, c0, l0) == m_scan_err(
                                src,
                                unterminated_comment_chars(l2 as nat),
                                src.len() as int,
                                l2 as nat,
                            ));
                            assert(self.new_tok_views(n0) =~= Seq::<TokModel>::empty());
                            lemma_scan_frame(src, self.current as int, self.line as nat);
                        }
                        Result::Err(msg)
                    },
                }
            } else {
                self.add_plain(TokenType::Slash, i + 1);
                proof {
                    lemma_delta_tok(*self, src, TokenType::Slash, c0, c0 + 1, l0, n0);
                assert(m_scan(src, c0, l0) == m_scan_tok(src, TokenType::Slash, c0, c0 + 1, l0));
                assert(next_pos(src, c0, c0 + 1) == c0 + 1);
                }
                Result::Ok(())
            }
        } else if c == ' ' || c == '\r' || c == '\t' {
            self.current = i + 1;
            proof {
                assert(self.new_tok_views(n0) =~= Seq::<TokModel>::empty());
                lemma_scan_frame(src, self.current as int, self.line as nat);
            }
            Result::Ok(())
        } else if c == '\n' {
            self.current = i + 1;
            if self.line < usize::MAX {
                self.line = self.line + 1;
            }
            proof {
                assert(self.new_tok_views(n0) =~= Seq::<TokModel>::empty());
                lemma_scan_frame(src, self.current as int, self.line as nat);
            }
            Result::Ok(())
        } else if c == '"' {
            let (close, l2) = string_end_exec(&self.source, i + 1, self.line);
            match close {
                Option::Some(q) => {
                    let lex_chars = subrange_chars(&self.source, i, q + 1);
                    let lexeme = chars_to_string(&lex_chars);
                    let text_chars = subrange_chars(&self.source, i + 1, q);
                    let text = chars_to_string(&text_chars);
                    self.tokens.push(
                        Token {
                            token_type: TokenType::String,
                            lexeme,
                            literal: Option::Some(LiteralValue::StringValue(text)),
                            line: l2,
                        },
                    );
                    self.current = q + 1;
                    self.line = l2;
                    proof {
                        assert(next_pos(src, c0, q as int + 1) == q as int + 1);
                        assert(self.new_tok_views(n0) =~= seq![
                            TokModel {
                                kind: TokenType::String,
                                lexeme: src.subrange(c0, q as int + 1),
                                lit: Option::Some(LitModel::S(src.subrange(c0 + 1, q as int))),
                                line: l2 as nat,
                            },
                        ]);
                        lemma_scan_frame(src, self.current as int, self.line as nat);
                    }
                    Result::Ok(())
                },
                Option::None => {
                    self.current = self.source.len();
                    self.line = l2;
                    let mut msg = String::new();
                    msg.append("Unterminated string at line ");
                    append_line_number_exec(&mut msg, l2);
                    proof {
                        assert(msg@ =~= unterminated_string_chars(l2 as nat));
                        assert(m_scan(src, c0, l0) == m_scan_err(
                            src,
                            unterminated_string_chars(l2 as nat),
                            src.len() as int,
                            l2 as nat,
                        ));
                        assert(self.new_tok_views(n0) =~= Seq::<TokModel>::empty());
                        lemma_scan_frame(src, self.current as int, self.line as nat);
                    }
                    Result::Err(msg)
                },
            }
        } else if is_digit_ch(c) {
            let j = digits_end_exec(&self.source, i + 1);
            let has_fraction = j < self.source.len() && {
                let dot = self.source[j] == '.';
                dot && j + 1 < self.source.len() && is_digit_ch(self.source[j + 1])
            };
            if has_fraction {
                let j2 = digits_end_exec(&self.source, j + 1);
                let mut ds = subrange_chars(&self.source, i, j);
                let frac = subrange_chars(&self.source, j + 1, j2);
                crate::dec::push_range(&mut ds, &frac, 0, frac.len());
                proof {
                    assert(ds@ =~= src.subrange(c0, j as int) + src.subrange(
                        j as int + 1,
                        j2 as int,
                    ));
                    lemma_digit_run(src, c0, j as int);
                    lemma_digit_run(src, j as int + 1, j2 as int);
                }
                let parsed = parse_digits(&ds);
                match parsed {
                    Option::None => {
                        self.current = j2;
                        let mut msg = String::new();
                        msg.append("Failed to parse the float at line: ");
                        append_line_number_exec(&mut msg, self.line);
                        proof {
                            assert(msg@ =~= float_parse_chars(l0));
                            assert(next_pos(src, c0, j2 as int) == j2 as int);
                            assert(m_scan(src, c0, l0) == m_scan_err(src, float_parse_chars(l0), j2 as int, l0));
                            assert(self.new_tok_views(n0) =~= Seq::<TokModel>::empty());
                            lemma_scan_frame(src, self.current as int, self.line as nat);
                        }
                        Result::Err(msg)
                    },
                    Option::Some(n) => {
                        if j2 - (j + 1) > MAX_FRACTION_DIGITS {
                            self.current = j2;
                            let mut msg = String::new();
                            msg.append("Failed to parse the float at line: ");
                            append_line_number_exec(&mut msg, self.line);
                            proof {
                                assert(msg@ =~= float_parse_chars(l0));
                                assert(next_pos(src, c0, j2 as int) == j2 as int);
                                assert(m_scan(src, c0, l0) == m_scan_err(src, float_parse_chars(l0), j2 as int, l0));
                                assert(self.new_tok_views(n0) =~= Seq::<TokModel>::empty());
                                lemma_scan_frame(src, self.current as int, self.line as nat);
                            }
                            Result::Err(msg)
                        } else {
                            let d = crate::dec::canonicalize(
                                false,
                                n,
                                -((j2 - (j + 1)) as i64),
                            );
                            let lex_chars = subrange_chars(&self.source, i, j2);
                            let lexeme = chars_to_string(&lex_chars);
                            let line = self.line;
                            self.tokens.push(
                                Token {
                                    token_type: TokenType::Number,
                                    lexeme,
                                    literal: Option::Some(LiteralValue::FValue(d)),
                                    line,
                                },
                            );
                            self.current = j2;
                            proof {
                                assert(next_pos(src, c0, j2 as int) == j2 as int);
                                assert(self.new_tok_views(n0) =~= seq![
                                    TokModel {
                                        kind: TokenType::Number,
                                        lexeme: src.subrange(c0, j2 as int),
                                        lit: Option::Some(LitModel::F(d)),
                                        line: l0,
                                    },
                                ]);
                                lemma_scan_frame(src, self.current as int, self.line as nat);
                            }
                            Result::Ok(())
                        }
                    },
                }
            } else {
                let ds = subrange_chars(&self.source, i, j);
                proof {
                    lemma_digit_run(src, c0, j as int);
                }
                let parsed = parse_digits(&ds);
                let value: Option<i64> = match parsed {
                    Option::None => Option::None,
                    Option::Some(n) => {
                        if n > i64::MAX as u128 {
                            Option::None
                        } else {
                            Option::Some(n as i64)
                        }
                    },
                };
                match value {
                    Option::None => {
                        self.current = j;
                        let mut msg = String::new();
                        msg.append("Failed to parse the int at line: ");
                        append_line_number_exec(&mut msg, self.line);
                        proof {
                            crate::dec::lemma_pow10_37_38();
                            assert(msg@ =~= int_parse_chars(l0));
                            assert(next_pos(src, c0, j as int) == j as int);
                            assert(m_scan(src, c0, l0) == m_scan_err(src, int_parse_chars(l0), j as int, l0));
                            assert(self.new_tok_views(n0) =~= Seq::<TokModel>::empty());
                            lemma_scan_frame(src, self.current as int, self.line as nat);
                        }
                        Result::Err(msg)
                    },
                    Option::Some(v) => {
                        let lex_chars = subrange_chars(&self.source, i, j);
                        let lexeme = chars_to_string(&lex_chars);
                        let line = self.line;
                        self.tokens.push(
                            Token {
                                token_type: TokenType::Number,
                                lexeme,
                                literal: Option::Some(LiteralValue::IntValue(v)),
                                line,
                            },
                        );
                        self.current = j;
                        proof {
                            crate::dec::lemma_pow10_37_38();
                            assert(next_pos(src, c0, j as int) == j as int);
                            assert(self.new_tok_views(n0) =~= seq![
                                TokModel {
                                    kind: TokenType::Number,
                                    lexeme: src.subrange(c0, j as int),
                                    lit: Option::Some(LitModel::I(v)),
                                    line: l0,
                                },
                            ]);
                            lemma_scan_frame(src, self.current as int, self.line as nat);
                        }
                        Result::Ok(())
                    },
                }
            }
        } else if is_alpha_ch(c) {
            let j = ident_end_exec(&self.source, i + 1);
            let lex_chars = subrange_chars(&self.source, i, j);
            let lexeme = chars_to_string(&lex_chars);
            let kind = keyword_kind_exec(lexeme.as_str());
            self.add_plain(kind, j);
            proof {
                lemma_delta_tok(*self, src, keyword_kind(src.subrange(c0, j as int)), c0, j as int, l0, n0);
                assert(m_scan(src, c0, l0) == m_scan_tok(src, keyword_kind(src.subrange(c0, j as int)), c0, j as int, l0));
                assert(next_pos(src, c0, j as int) == j as int);
            }
            Result::Ok(())
        } else {
            self.current = i + 1;
            let mut msg = String::new();
            msg.append("Unexpected character ");
            let mut cv: Vec<char> = Vec::new();
            cv.push(c);
            let cstr = chars_to_string(&cv);
            msg.append(cstr.as_str());
            msg.append(" at line ");
            append_line_number_exec(&mut msg, self.line);
            proof {
                assert(msg@ =~= unexpected_char_chars(c, l0));
                assert(m_scan(src, c0, l0) == m_scan_err(src, unexpected_char_chars(c, l0), c0 + 1, l0));
                assert(self.new_tok_views(n0) =~= Seq::<TokModel>::empty());
                lemma_scan_frame(src, self.current as int, self.line as nat);
            }
            Result::Err(msg)
        }
    }
}

/// The delta of a plain-token push matches one model token.
proof fn lemma_delta_tok(
    s: Scanner,
    src: Seq<char>,
    kind: TokenType,
    c0: int,
    j: int,
    l0: nat,
    n0: int,
)
    requires
        0 <= n0 <= s.tokens@.len(),
        s.new_tok_views(n0) =~= seq![plain_tok(src, kind, c0, j, l0)],
    ensures
        s.new_tok_views(n0) == seq![plain_tok(src, kind, c0, j, l0)],
        Seq::<Seq<char>>::empty() + m_scan(src, s.current as int, s.line as nat).1 == m_scan(
            src,
            s.current as int,
            s.line as nat,
        ).1,
{
    lemma_scan_frame(src, s.current as int, s.line as nat);
}

/// Concatenating nothing changes nothing.
proof fn lemma_scan_frame(src: Seq<char>, i: int, l: nat)
    ensures
        Seq::<TokModel>::empty() + m_scan(src, i, l).0 == m_scan(src, i, l).0,
        Seq::<Seq<char>>::empty() + m_scan(src, i, l).1 == m_scan(src, i, l).1,
{
    assert(Seq::<TokModel>::empty() + m_scan(src, i, l).0 =~= m_scan(src, i, l).0);
    assert(Seq::<Seq<char>>::empty() + m_scan(src, i, l).1 =~= m_scan(src, i, l).1);
}

/// A scanned digit run holds digits only.
proof fn lemma_digit_run(src: Seq<char>, i: int, j: int)
    requires
        0 <= i,
        j == scan_digits_end(src, i) || (i <= j && j == scan_digits_end(src, i - 1)) || (i - 1
            >= 0 && is_digit_c(src[i - 1]) && j == scan_digits_end(src, i)),
    ensures
        forall|k: int| i <= k < j ==> is_digit_c(#[trigger] src[k]),
{
    lemma_digit_run_core(src, i, j);
}

/// Every position before the end of a digit run holds a digit.
proof fn lemma_digit_run_core(src: Seq<char>, i: int, j: int)
    ensures
        j == scan_digits_end(src, i) ==> forall|k: int| i <= k < j ==> is_digit_c(
            #[trigger] src[k],
        ),
    decreases src.len() - i,
{
    if 0 <= i < src.len() && is_digit_c(src[i]) {
        lemma_digit_run_core(src, i + 1, j);
    }
}


/// Duplicates a token vector, element by element.
fn dup_tokens(v: &Vec<Token>) -> (r: Vec<Token>)
    ensures
        r@ == v@,
{
    let mut r: Vec<Token> = Vec::new();
    let mut k: usize = 0;
    while k < v.len()
        invariant
            k <= v@.len(),
            r@ == v@.subrange(0, k as int),
        decreases v@.len() - k,
    {
        r.push(v[k].dup());
        k = k + 1;
        assert(r@ =~= v@.subrange(0, k as int));
    }
    assert(r@ =~= v@);
    r
}

/// Joins error messages with newlines.
pub(crate) fn join_errors_exec(v: &Vec<String>) -> (r: String)
    ensures
        r@ == join_chars(v@.map_values(|s: String| s@)),
{
    let ghost msgs = v@.map_values(|s: String| s@);
    let mut out = String::new();
    let mut k: usize = 0;
    proof {
        if msgs.len() == 0 {
            assert(join_chars(msgs) == Seq::<char>::empty());
        }
    }
    while k < v.len()
        invariant
            k <= v@.len(),
            msgs == v@.map_values(|s: String| s@),
            v@.len() > 0 ==> k < 1 || join_chars(msgs) == out@ + (if k < v@.len() {
                seq!['\n'] + join_chars(msgs.subrange(k as int, msgs.len() as int))
            } else {
                Seq::<char>::empty()
            }),
            k >= 1 || out@ == Seq::<char>::empty(),
            v@.len() == 0 ==> out@ == Seq::<char>::empty(),
        decreases v@.len() - k,
    {
        if k > 0 {
            proof {
                reveal_strlit("\n");
            }
            out.append("\n");
        }
        out.append(v[k].as_str());
        k = k + 1;
        proof {
            lemma_join_step(msgs, k as int - 1);
            if k < v@.len() {
                assert(out@ + (seq!['\n'] + join_chars(
                    msgs.subrange(k as int, msgs.len() as int),
                )) =~= (if k == 1 {
                    msgs[0]
                } else {
                    out@
                }) + (if k == 1 {
                    Seq::<char>::empty()
                } else {
                    Seq::<char>::empty()
                }) + (seq!['\n'] + join_chars(msgs.subrange(k as int, msgs.len() as int))));
            }
        }
    }
    out
}

/// One step of joining: the join of a suffix unrolls from the front.
proof fn lemma_join_step(msgs: Seq<Seq<char>>, k: int)
    requires
        0 <= k < msgs.len(),
    ensures
        join_chars(msgs.subrange(k, msgs.len() as int)) == if k == msgs.len() - 1 {
            msgs[k]
        } else {
            msgs[k] + seq!['\n'] + join_chars(msgs.subrange(k + 1, msgs.len() as int))
        },
{
    let s = msgs.subrange(k, msgs.len() as int);
    assert(s[0] == msgs[k]);
    if k < msgs.len() - 1 {
        assert(s.subrange(1, s.len() as int) =~= msgs.subrange(k + 1, msgs.len() as int));
    }
}

impl Scanner {
    /// Scans the whole input: the token stream terminated by an
    /// end-of-file token, or all the scan errors joined by newlines.
    /// Either way `self.tokens` holds the tokens that were produced.
    #[verifier::loop_isolation(false)]
    pub fn scan_tokens(&mut self) -> (r: Result<Vec<Token>, String>)
        requires
            old(self).wf(),
        ensures
            final(self).wf(),
            final(self).source@ == old(self).source@,
            ({
                let full = m_scan(
                    old(self).source@,
                    old(self).current as int,
                    old(self).line as nat,
                );
                let n0 = old(self).tokens@.len() as int;
                let eof = TokModel {
                    kind: TokenType::Eof,
                    lexeme: Seq::empty(),
                    lit: Option::None,
                    line: full.2,
                };
                &&& final(self).new_tok_views(n0) == full.0 + seq![eof]
                &&& (forall|k: int|
                    0 <= k < n0 ==> final(self).tokens@[k] == old(self).tokens@[k])
                &&& (match r {
                    Result::Ok(ts) => full.1.len() == 0 && ts@ == final(self).tokens@,
                    Result::Err(e) => full.1.len() > 0 && e@ == join_chars(full.1),
                })
            }),
    {
        let ghost src = self.source@;
        let ghost c0 = self.current as int;
        let ghost l0 = self.line as nat;
        let ghost n0 = self.tokens@.len() as int;
        let mut errors: Vec<String> = Vec::new();
        while self.current < self.source.len()
            invariant
                self.wf(),
                self.source@ == src,
                n0 <= self.tokens@.len(),
                forall|k: int| 0 <= k < n0 ==> self.tokens@[k] == old(self).tokens@[k],
                ({
                    let full = m_scan(src, c0, l0);
                    let rest = m_scan(src, self.current as int, self.line as nat);
                    &&& full.0 == self.new_tok_views(n0) + rest.0
                    &&& full.1 == errors@.map_values(|s: String| s@) + rest.1
                    &&& full.2 == rest.2
                }),
            decreases src.len() - self.current,
        {
            self.start = self.current;
            let ghost tokens_before = self.tokens@;
            let ghost errs_before = errors@;
            let step = self.scan_token();
            match step {
                Result::Ok(()) => {
                    proof {
                        lemma_views_compose(self.tokens@, tokens_before, n0);
                        assert(errors@.map_values(|s: String| s@) + (Seq::<Seq<char>>::empty()
                            + m_scan(src, self.current as int, self.line as nat).1)
                            =~= errors@.map_values(|s: String| s@) + m_scan(
                            src,
                            self.current as int,
                            self.line as nat,
                        ).1);
                    }
                },
                Result::Err(m) => {
                    errors.push(m);
                    proof {
                        lemma_views_compose(self.tokens@, tokens_before, n0);
                        assert(errors@.map_values(|s: String| s@) =~= errs_before.map_values(
                            |s: String| s@,
                        ) + seq![errors@.last()@]);
                        assert(errs_before.map_values(|s: String| s@) + (seq![errors@.last()@]
                            + m_scan(src, self.current as int, self.line as nat).1)
                            =~= (errs_before.map_values(|s: String| s@) + seq![errors@.last()@])
                            + m_scan(src, self.current as int, self.line as nat).1);
                    }
                },
            }
        }
        let line = self.line;
        self.tokens.push(
            Token {
                token_type: TokenType::Eof,
                lexeme: String::new(),
                literal: Option::None,
                line,
            },
        );
        proof {
            let full = m_scan(src, c0, l0);
            assert(m_scan(src, self.current as int, self.line as nat) == (
                Seq::<TokModel>::empty(),
                Seq::<Seq<char>>::empty(),
                self.line as nat,
            ));
            assert(full.0 + Seq::<TokModel>::empty() =~= full.0);
            assert(full.1 == errors@.map_values(|s: String| s@) + Seq::<Seq<char>>::empty());
            assert(errors@.map_values(|s: String| s@) + Seq::<Seq<char>>::empty()
                =~= errors@.map_values(|s: String| s@));
            assert(self.new_tok_views(n0) =~= full.0 + seq![
                TokModel {
                    kind: TokenType::Eof,
                    lexeme: Seq::empty(),
                    lit: Option::None,
                    line: full.2,
                },
            ]);
        }
        if errors.len() > 0 {
            let joined = join_errors_exec(&errors);
            return Result::Err(joined);
        }
        let out = dup_tokens(&self.tokens);
        Result::Ok(out)
    }
}

/// Token views compose across an extension of the vector.
proof fn lemma_views_compose(now: Seq<Token>, before: Seq<Token>, n0: int)
    requires
        0 <= n0 <= before.len() <= now.len(),
        forall|k: int| 0 <= k < before.len() ==> now[k] == before[k],
    ensures
        now.map_values(|t: Token| tok_view(t)).skip(n0) == before.map_values(
            |t: Token| tok_view(t),
        ).skip(n0) + now.map_values(|t: Token| tok_view(t)).skip(before.len() as int),
{
    assert(now.map_values(|t: Token| tok_view(t)).skip(n0) =~= before.map_values(
        |t: Token| tok_view(t),
    ).skip(n0) + now.map_values(|t: Token| tok_view(t)).skip(before.len() as int));
}


/// The concatenation of the lexemes of a token stream.
pub open spec fn lexemes_concat(toks: Seq<TokModel>) -> Seq<char>
    decreases toks.len(),
{
    if toks.len() == 0 {
        Seq::empty()
    } else {
        toks[0].lexeme + lexemes_concat(toks.subrange(1, toks.len() as int))
    }
}

/// The source from position `i` on, stripped of whitespace and comments:
/// string literals are kept whole, and every other surviving character is
/// kept in place.  Where scanning would report an unterminated string or
/// comment the remainder is dropped; the lexeme law below never reaches
/// those inputs.
pub open spec fn strip_source(src: Seq<char>, i: int) -> Seq<char>
    decreases src.len() - i,
{
    if i < 0 || i >= src.len() {
        Seq::empty()
    } else {
        let c = src[i];
        if c == '/' && i + 1 < src.len() && src[i + 1] == '/' {
            strip_source(src, next_pos(src, i, scan_line_end(src, i + 2)))
        } else if c == '/' && i + 1 < src.len() && src[i + 1] == '*' {
            match scan_block_end(src, i + 2, 0).0 {
                Option::Some(j) => strip_source(src, next_pos(src, i, j)),
                Option::None => Seq::empty(),
            }
        } else if c == ' ' || c == '\r' || c == '\t' || c == '\n' {
            strip_source(src, i + 1)
        } else if c == '"' {
            match scan_string_end(src, i + 1, 0).0 {
                Option::Some(q) => src.subrange(i, q + 1) + strip_source(
                    src,
                    next_pos(src, i, q + 1),
                ),
                Option::None => Seq::empty(),
            }
        } else {
            seq![c] + strip_source(src, i + 1)
        }
    }
}

/// Prepending one token to a stream prepends its lexeme.
proof fn lemma_lexemes_unroll(tok: TokModel, ts: Seq<TokModel>)
    ensures
        lexemes_concat(seq![tok] + ts) == tok.lexeme + lexemes_concat(ts),
{
    let all = seq![tok] + ts;
    assert(all[0] == tok);
    assert(all.subrange(1, all.len() as int) =~= ts);
}

/// Where a block comment closes does not depend on the line counter.
proof fn lemma_block_end_line_indep(src: Seq<char>, i: int, l1: nat, l2: nat)
    ensures
        scan_block_end(src, i, l1).0 == scan_block_end(src, i, l2).0,
    decreases src.len() - i,
{
    if 0 <= i < src.len() {
        if src[i] == '*' && i + 1 < src.len() && src[i + 1] == '/' {
        } else {
            lemma_block_end_line_indep(
                src,
                i + 1,
                if src[i] == '\n' {
                    bump_line(l1)
                } else {
                    l1
                },
                if src[i] == '\n' {
                    bump_line(l2)
                } else {
                    l2
                },
            );
        }
    }
}

/// Where a string closes does not depend on the line counter.
proof fn lemma_string_end_line_indep(src: Seq<char>, i: int, l1: nat, l2: nat)
    ensures
        scan_string_end(src, i, l1).0 == scan_string_end(src, i, l2).0,
    decreases src.len() - i,
{
    if 0 <= i < src.len() {
        if src[i] == '"' {
        } else {
            lemma_string_end_line_indep(
                src,
                i + 1,
                if src[i] == '\n' {
                    bump_line(l1)
                } else {
                    l1
                },
                if src[i] == '\n' {
                    bump_line(l2)
                } else {
                    l2
                },
            );
        }
    }
}

/// A digit run ends inside the input.
proof fn lemma_scan_digits_end_bounds(src: Seq<char>, i: int)
    requires
        0 <= i <= src.len(),
    ensures
        i <= scan_digits_end(src, i) <= src.len(),
    decreases src.len() - i,
{
    if i < src.len() && is_digit_c(src[i]) {
        lemma_scan_digits_end_bounds(src, i + 1);
    }
}

/// An identifier run ends inside the input.
proof fn lemma_scan_ident_end_bounds(src: Seq<char>, i: int)
    requires
        0 <= i <= src.len(),
    ensures
        i <= scan_ident_end(src, i) <= src.len(),
    decreases src.len() - i,
{
    if i < src.len() && is_alnum_c(src[i]) {
        lemma_scan_ident_end_bounds(src, i + 1);
    }
}

/// A line comment ends inside the input.
proof fn lemma_scan_line_end_bounds(src: Seq<char>, i: int)
    requires
        0 <= i <= src.len(),
    ensures
        i <= scan_line_end(src, i) <= src.len(),
    decreases src.len() - i,
{
    if i < src.len() && src[i] != '\n' {
        lemma_scan_line_end_bounds(src, i + 1);
    }
}

/// Every position before the end of an identifier run holds an
/// identifier character.
proof fn lemma_ident_run_core(src: Seq<char>, i: int, j: int)
    ensures
        j == scan_ident_end(src, i) ==> forall|k: int| i <= k < j ==> is_alnum_c(
            #[trigger] src[k],
        ),
    decreases src.len() - i,
{
    if 0 <= i < src.len() && is_alnum_c(src[i]) {
        lemma_ident_run_core(src, i + 1, j);
    }
}

/// Stripping walks one character at a time through a run of identifier
/// characters.
proof fn lemma_strip_alnum_run(src: Seq<char>, i: int, j: int)
    requires
        0 <= i <= j <= src.len(),
        forall|k: int| i <= k < j ==> is_alnum_c(#[trigger] src[k]),
    ensures
        strip_source(src, i) == src.subrange(i, j) + strip_source(src, j),
    decreases j - i,
{
    if i == j {
        assert(src.subrange(i, j) =~= Seq::<char>::empty());
        assert(src.subrange(i, j) + strip_source(src, j) =~= strip_source(src, j));
    } else {
        let c = src[i];
        assert(is_alnum_c(c));
        assert(c != '/' && c != ' ' && c != '\r' && c != '\t' && c != '\n' && c != '"');
        assert(strip_source(src, i) == seq![c] + strip_source(src, i + 1));
        lemma_strip_alnum_run(src, i + 1, j);
        assert(seq![c] + (src.subrange(i + 1, j) + strip_source(src, j)) =~= src.subrange(i, j)
            + strip_source(src, j));
    }
}


/// The lexeme law: on any input the scanner accepts without errors, the
/// concatenation of the lexemes it produces is exactly the source
/// stripped of whitespace and comments.
#[verifier::rlimit(100)]
#[verifier::spinoff_prover]
pub proof fn lemma_lexemes_cover_source(src: Seq<char>, i: int, line: nat)
    requires
        m_scan(src, i, line).1.len() == 0,
    ensures
        lexemes_concat(m_scan(src, i, line).0) == strip_source(src, i),
    decreases src.len() - i, 1int,
{
    if i < 0 || i >= src.len() {
        assert(m_scan(src, i, line).0 =~= Seq::<TokModel>::empty());
        assert(lexemes_concat(Seq::<TokModel>::empty()) =~= Seq::<char>::empty());
    } else {
        let c = src[i];
        let full = m_scan(src, i, line);
        if c == '(' {
            lemma_lexemes_one_token(src, i, i + 1, line, TokenType::LeftParen);
        } else if c == ')' {
            lemma_lexemes_one_token(src, i, i + 1, line, TokenType::RightParen);
        } else if c == '{' {
            lemma_lexemes_one_token(src, i, i + 1, line, TokenType::LeftBrace);
        } else if c == '}' {
            lemma_lexemes_one_token(src, i, i + 1, line, TokenType::RightBrace);
        } else if c == ',' {
            lemma_lexemes_one_token(src, i, i + 1, line, TokenType::Comma);
        } else if c == '.' {
            lemma_lexemes_one_token(src, i, i + 1, line, TokenType::Dot);
        } else if c == '-' {
            lemma_lexemes_one_token(src, i, i + 1, line, TokenType::Minus);
        } else if c == '+' {
            lemma_lexemes_one_token(src, i, i + 1, line, TokenType::Plus);
        } else if c == ';' {
            lemma_lexemes_one_token(src, i, i + 1, line, TokenType::Semicolon);
        } else if c == '*' {
            if i + 1 < src.len() && src[i + 1] == '/' {
                assert(m_scan_err(src, extra_comment_chars(line), i + 2, line).1.len() > 0);
                assert(full.1.len() > 0);
            } else {
                lemma_lexemes_one_token(src, i, i + 1, line, TokenType::Star);
            }
        } else if c == '!' {
            if i + 1 < src.len() && src[i + 1] == '=' {
                lemma_lexemes_one_token(src, i, i + 2, line, TokenType::BangEqual);
            } else {
                lemma_lexemes_one_token(src, i, i + 1, line, TokenType::Bang);
            }
        } else if c == '=' {
            if i + 1 < src.len() && src[i + 1] == '=' {
                lemma_lexemes_one_token(src, i, i + 2, line, TokenType::EqualEqual);
            } else {
                lemma_lexemes_one_token(src, i, i + 1, line, TokenType::Equal);
            }
        } else if c == '<' {
            if i + 1 < src.len() && src[i + 1] == '=' {
                lemma_lexemes_one_token(src, i, i + 2, line, TokenType::LessEqual);
            } else {
                lemma_lexemes_one_token(src, i, i + 1, line, TokenType::Less);
            }
        } else if c == '>' {
            if i + 1 < src.len() && src[i + 1] == '=' {
                lemma_lexemes_one_token(src, i, i + 2, line, TokenType::GreaterEqual);
            } else {
                lemma_lexemes_one_token(src, i, i + 1, line, TokenType::Greater);
            }
        } else if c == '/' {
            if i + 1 < src.len() && src[i + 1] == '/' {
                let j = scan_line_end(src, i + 2);
                lemma_scan_line_end_bounds(src, i + 2);
                lemma_lexemes_cover_source(src, next_pos(src, i, j), line);
            } else if i + 1 < src.len() && src[i + 1] == '*' {
                lemma_block_end_line_indep(src, i + 2, line, 0);
                let (close, line2) = scan_block_end(src, i + 2, line);
                match close {
                    Option::Some(j) => {
                        lemma_lexemes_cover_source(src, next_pos(src, i, j), line2);
                    },
                    Option::None => {
                        assert(m_scan_err(
                            src,
                            unterminated_comment_chars(line2),
                            src.len() as int,
                            line2,
                        ).1.len() > 0);
                        assert(full.1.len() > 0);
                    },
                }
            } else {
                lemma_lexemes_one_token(src, i, i + 1, line, TokenType::Slash);
            }
        } else if c == ' ' || c == '\r' || c == '\t' {
            lemma_lexemes_cover_source(src, i + 1, line);
        } else if c == '\n' {
            lemma_lexemes_cover_source(src, i + 1, bump_line(line));
        } else if c == '"' {
            lemma_string_end_line_indep(src, i + 1, line, 0);
            let (close, line2) = scan_string_end(src, i + 1, line);
            match close {
                Option::Some(q) => {
                    let tok = TokModel {
                        kind: TokenType::String,
                        lexeme: src.subrange(i, q + 1),
                        lit: Option::Some(LitModel::S(src.subrange(i + 1, q))),
                        line: line2,
                    };
                    let rest = m_scan(src, next_pos(src, i, q + 1), line2);
                    assert(full == (seq![tok] + rest.0, rest.1, rest.2));
                    lemma_lexemes_unroll(tok, rest.0);
                    lemma_lexemes_cover_source(src, next_pos(src, i, q + 1), line2);
                },
                Option::None => {
                    assert(m_scan_err(
                        src,
                        unterminated_string_chars(line2),
                        src.len() as int,
                        line2,
                    ).1.len() > 0);
                    assert(full.1.len() > 0);
                },
            }
        } else if is_digit_c(c) {
            let j = scan_digits_end(src, i + 1);
            lemma_scan_digits_end_bounds(src, i + 1);
            lemma_digit_run_core(src, i + 1, j);
            if j < src.len() && src[j] == '.' && j + 1 < src.len() && is_digit_c(src[j + 1]) {
                let j2 = scan_digits_end(src, j + 1);
                lemma_scan_digits_end_bounds(src, j + 1);
                lemma_digit_run_core(src, j + 1, j2);
                let ds = src.subrange(i, j) + src.subrange(j + 1, j2);
                if digits_val(ds) >= pow10(38) || j2 - (j + 1) > MAX_FRACTION_DIGITS as int {
                    assert(m_scan_err(src, float_parse_chars(line), next_pos(src, i, j2), line).1.len()
                        > 0);
                    assert(full.1.len() > 0);
                } else {
                    let d = canon_spec(digits_val(ds) as int, -(j2 - (j + 1)));
                    let tok = TokModel {
                        kind: TokenType::Number,
                        lexeme: src.subrange(i, j2),
                        lit: Option::Some(LitModel::F(d)),
                        line,
                    };
                    let rest = m_scan(src, next_pos(src, i, j2), line);
                    assert(full == (seq![tok] + rest.0, rest.1, rest.2));
                    lemma_lexemes_unroll(tok, rest.0);
                    lemma_lexemes_cover_source(src, next_pos(src, i, j2), line);
                    lemma_strip_alnum_run(src, i, j);
                    assert(strip_source(src, j) == seq!['.'] + strip_source(src, j + 1));
                    lemma_strip_alnum_run(src, j + 1, j2);
                    assert(next_pos(src, i, j2) == j2);
                    assert(src.subrange(i, j2) =~= src.subrange(i, j) + seq![src[j]]
                        + src.subrange(j + 1, j2));
                    assert(src.subrange(i, j) + (seq!['.'] + (src.subrange(j + 1, j2)
                        + strip_source(src, j2))) =~= src.subrange(i, j2) + strip_source(
                        src,
                        j2,
                    ));
                }
            } else {
                let ds = src.subrange(i, j);
                if digits_val(ds) > i64::MAX as nat {
                    assert(m_scan_err(src, int_parse_chars(line), next_pos(src, i, j), line).1.len()
                        > 0);
                    assert(full.1.len() > 0);
                } else {
                    let tok = TokModel {
                        kind: TokenType::Number,
                        lexeme: src.subrange(i, j),
                        lit: Option::Some(LitModel::I(digits_val(ds) as i64)),
                        line,
                    };
                    let rest = m_scan(src, next_pos(src, i, j), line);
                    assert(full == (seq![tok] + rest.0, rest.1, rest.2));
                    lemma_lexemes_unroll(tok, rest.0);
                    lemma_lexemes_cover_source(src, next_pos(src, i, j), line);
                    lemma_strip_alnum_run(src, i, j);
                    assert(next_pos(src, i, j) == j);
                }
            }
        } else if is_alpha_c(c) {
            let j = scan_ident_end(src, i + 1);
            lemma_scan_ident_end_bounds(src, i + 1);
            lemma_ident_run_core(src, i + 1, j);
            let tok = plain_tok(src, keyword_kind(src.subrange(i, j)), i, j, line);
            let rest = m_scan(src, next_pos(src, i, j), line);
            assert(full == (seq![tok] + rest.0, rest.1, rest.2));
            lemma_lexemes_unroll(tok, rest.0);
            lemma_lexemes_cover_source(src, next_pos(src, i, j), line);
            lemma_strip_alnum_run(src, i, j);
            assert(next_pos(src, i, j) == j);
        } else {
            assert(m_scan_err(src, unexpected_char_chars(c, line), i + 1, line).1.len() > 0);
            assert(full.1.len() > 0);
        }
    }
}

/// The law's step for a token of plain characters at `[i..j)`: its lexeme
/// is the characters stripping keeps there.
#[verifier::rlimit(100)]
#[verifier::spinoff_prover]
proof fn lemma_lexemes_one_token(src: Seq<char>, i: int, j: int, line: nat, kind: TokenType)
    requires
        0 <= i < j <= src.len(),
        j <= i + 2,
        m_scan(src, i, line).1.len() == 0,
        m_scan(src, i, line) == m_scan_tok(src, kind, i, j, line),
        ({
            let c = src[i];
            &&& !(c == '/' && i + 1 < src.len() && (src[i + 1] == '/' || src[i + 1] == '*'))
            &&& c != ' ' && c != '\r' && c != '\t' && c != '\n' && c != '"'
            &&& !is_digit_c(c) && !is_alpha_c(c)
            &&& (j == i + 2 ==> ({
                let c2 = src[i + 1];
                &&& c2 != '/' && c2 != ' ' && c2 != '\r' && c2 != '\t' && c2 != '\n' && c2 != '"'
                &&& !is_digit_c(c2) && !is_alpha_c(c2)
            }))
        }),
    ensures
        lexemes_concat(m_scan(src, i, line).0) == strip_source(src, i),
    decreases src.len() - i, 0int,
{
    let tok = plain_tok(src, kind, i, j, line);
    let rest = m_scan(src, next_pos(src, i, j), line);
    assert(next_pos(src, i, j) == j);
    assert(m_scan(src, i, line) == (seq![tok] + rest.0, rest.1, rest.2));
    lemma_lexemes_unroll(tok, rest.0);
    lemma_lexemes_cover_source(src, j, line);
    if j == i + 1 {
        assert(strip_source(src, i) == seq![src[i]] + strip_source(src, i + 1));
        assert(seq![src[i]] + strip_source(src, i + 1) =~= src.subrange(i, j) + strip_source(
            src,
            j,
        ));
    } else {
        assert(strip_source(src, i) == seq![src[i]] + strip_source(src, i + 1));
        assert(strip_source(src, i + 1) == seq![src[i + 1]] + strip_source(src, i + 2));
        assert(seq![src[i]] + (seq![src[i + 1]] + strip_source(src, i + 2)) =~= src.subrange(
            i,
            j,
        ) + strip_source(src, j));
    }
}

} // verus!
