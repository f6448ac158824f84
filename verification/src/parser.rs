//! The parser: recursive descent from tokens to statements, with
//! statement-level recovery.
//!
//! Every production consumes strictly forward through the token stream,
//! yields well-formed syntax, and reports the first problem of each
//! declaration; after an error the parser synchronizes at the next
//! statement boundary and goes on, so one parse can report many errors.

use vstd::prelude::*;

verus! {

use std::rc::Rc;

use vstd::string::StringExecFns;

use crate::expression::{Expression, ExprModel, all_exprs_wf, expr_view, exprs_view};
use crate::expression_literal_value::LiteralValue as RuntimeValue;
use crate::expression_literal_value::VModel;
use crate::statement::{Statement, StmtModel, all_stmts_wf, stmt_view, stmts_view};
use crate::token::{Token, TokenType, token_stream_ok};

/// The parser: the token stream and the cursor into it.
#[derive(Debug)]
pub struct Parser {
    pub tokens: Vec<Token>,
    pub current: usize,
}

impl Parser {
    /// Structural sanity: the cursor is inside or one past the stream,
    /// and the stream is usable.
    pub open spec fn wf(&self) -> bool {
        self.current <= self.tokens@.len() && token_stream_ok(self.tokens@)
    }

    /// Whether the cursor rests at the end of the stream.
    pub open spec fn at_end(&self) -> bool {
        self.current >= self.tokens@.len() || self.tokens@[self.current as int].token_type
            == TokenType::Eof
    }

    /// A parser at the start of `tokens`.
    pub fn new(tokens: Vec<Token>) -> (r: Parser)
        requires
            token_stream_ok(tokens@),
        ensures
            r.wf(),
            r.tokens@ == tokens@,
            r.current == 0,
    {
        Parser { tokens, current: 0 }
    }

    /// Whether the next token exists and has kind `tt`.
    fn check(&self, tt: TokenType) -> (r: bool)
        requires
            self.wf(),
        ensures
            r == (!self.at_end() && self.current < self.tokens@.len()
                && self.tokens@[self.current as int].token_type == tt),
    {
        if self.current >= self.tokens.len() {
            return false;
        }
        let k = self.tokens[self.current].token_type;
        k != TokenType::Eof && k == tt
    }

    /// Whether the cursor rests at the end of the stream.
    fn is_at_end(&self) -> (r: bool)
        requires
            self.wf(),
        ensures
            r == self.at_end(),
    {
        if self.current >= self.tokens.len() {
            return true;
        }
        self.tokens[self.current].token_type == TokenType::Eof
    }

    /// Consumes and returns the next token when it has kind `tt`.
    fn match_kind(&mut self, tt: TokenType) -> (r: Option<Token>)
        requires
            old(self).wf(),
        ensures
            final(self).wf(),
            final(self).tokens@ == old(self).tokens@,
            ({
                match r {
                    Option::Some(t) => final(self).current == old(self).current + 1 && t == old(
                        self,
                    ).tokens@[old(self).current as int] && t.token_type == tt && t.wf() && old(
                        self,
                    ).current < old(self).tokens@.len(),
                    Option::None => final(self).current == old(self).current && (tt
                        != TokenType::Eof ==> tkind(old(self).tokens@, old(self).current as int)
                        != tt),
                }
            }),
    {
        if self.check(tt) {
            let n = self.tokens.len();
            let t = self.tokens[self.current].dup();
            self.current = self.current + 1;
            Option::Some(t)
        } else {
            Option::None
        }
    }

    /// The next token, or a bare end-of-file token past the stream.
    fn peek(&self) -> (r: Token)
        requires
            self.wf(),
        ensures
            r.wf(),
            self.current < self.tokens@.len() ==> r == self.tokens@[self.current as int],
            self.current >= self.tokens@.len() ==> r.token_type == TokenType::Eof && r.line == 0
                && r.lexeme@ == Seq::<char>::empty(),
    {
        if self.current < self.tokens.len() {
            self.tokens[self.current].dup()
        } else {
            Token { token_type: TokenType::Eof, lexeme: String::new(), literal: Option::None, line: 0 }
        }
    }

    /// Consumes the next token when it has kind `tt`; reports `message`
    /// otherwise.
    fn consume(&mut self, tt: TokenType, message: &str) -> (r: Result<Token, String>)
        requires
            old(self).wf(),
            tt != TokenType::Eof,
        ensures
            final(self).wf(),
            final(self).tokens@ == old(self).tokens@,
            ({
                match r {
                    Result::Ok(t) => final(self).current == old(self).current + 1 && t.wf() && t
                        == old(self).tokens@[old(self).current as int] && t.token_type == tt
                        && tkind(old(self).tokens@, old(self).current as int) == tt && old(
                        self,
                    ).current < old(self).tokens@.len(),
                    Result::Err(e) => final(self).current == old(self).current && e@ == message@
                        && tkind(old(self).tokens@, old(self).current as int) != tt,
                }
            }),
    {
        match self.match_kind(tt) {
            Option::Some(t) => Result::Ok(t),
            Option::None => {
                let mut msg = String::new();
                msg.append(message);
                Result::Err(msg)
            },
        }
    }

    /// Discards tokens until after a semicolon or before a statement
    /// keyword: the parser's recovery point.
    #[verifier::loop_isolation(false)]
    fn synchronize(&mut self)
        requires
            old(self).wf(),
        ensures
            final(self).wf(),
            final(self).tokens@ == old(self).tokens@,
            final(self).current >= old(self).current,
            !old(self).at_end() ==> final(self).current > old(self).current,
            final(self).current as int == m_sync(old(self).tokens@, old(self).current as int),
    {
        if !self.is_at_end() {
            let n = self.tokens.len();
            self.current = self.current + 1;
        }
        while !self.is_at_end()
            invariant
                self.wf(),
                self.tokens@ == old(self).tokens@,
                self.current >= old(self).current,
                !old(self).at_end() ==> self.current > old(self).current,
                self.current >= 1 || old(self).at_end(),
                m_sync(old(self).tokens@, old(self).current as int) == m_sync_loop(
                    old(self).tokens@,
                    self.current as int,
                ),
            decreases self.tokens@.len() - self.current,
        {
            let prev = self.tokens[self.current - 1].token_type;
            if prev == TokenType::Semicolon {
                return ;
            }
            let next = self.tokens[self.current].token_type;
            match next {
                TokenType::Class => { return ; },
                TokenType::Fun => { return ; },
                TokenType::Var => { return ; },
                TokenType::For => { return ; },
                TokenType::If => { return ; },
                TokenType::While => { return ; },
                TokenType::Print => { return ; },
                TokenType::Return => { return ; },
                _ => {},
            }
            proof {
                assert(m_sync_loop(old(self).tokens@, self.current as int) == m_sync_loop(
                    old(self).tokens@,
                    self.current as int + 1,
                ));
            }
            let n = self.tokens.len();
            self.current = self.current + 1;
        }
    }

    /// Parses the whole stream as a program: declarations until the end,
    /// with recovery after each error; all the errors come back joined by
    /// newlines.
    #[verifier::loop_isolation(false)]
    pub fn parse(&mut self) -> (r: Result<Vec<Statement>, String>)
        requires
            old(self).wf(),
        ensures
            final(self).wf(),
            final(self).tokens@ == old(self).tokens@,
            r matches Result::Ok(stmts) ==> all_stmts_wf(stmts@, 0),
            ({
                let full = m_program(old(self).tokens@, old(self).current as int);
                match r {
                    Result::Ok(stmts) => full.1.len() == 0 && stmts_view(stmts@, 0) == full.0,
                    Result::Err(e) => full.1.len() > 0 && e@ == crate::scanner::join_chars(full.1),
                }
            }),
    {
        let ghost ts = old(self).tokens@;
        let ghost i0 = old(self).current as int;
        let mut statements: Vec<Statement> = Vec::new();
        let mut errors: Vec<String> = Vec::new();
        while !self.is_at_end()
            invariant
                self.wf(),
                self.tokens@ == old(self).tokens@,
                self.current >= old(self).current,
                self.current <= self.tokens@.len(),
                all_stmts_wf(statements@, 0),
                ({
                    let full = m_program(ts, i0);
                    let rest = m_program(ts, self.current as int);
                    &&& full.0 == stmts_view(statements@, 0) + rest.0
                    &&& full.1 == errors@.map_values(|s: String| s@) + rest.1
                }),
            decreases self.tokens@.len() - self.current,
        {
            let cur0 = self.current;
            match self.declaration() {
                Result::Ok(s) => {
                    proof {
                        crate::statement::lemma_all_stmts_wf_snoc(statements@, s);
                        crate::statement::lemma_stmts_view_snoc(statements@, s);
                        assert(step_to(ts, cur0 as int, self.current as int)
                            == self.current as int);
                        assert((stmts_view(statements@, 0) + seq![stmt_view(s)]) + m_program(
                            ts,
                            self.current as int,
                        ).0 =~= stmts_view(statements@, 0) + (seq![stmt_view(s)] + m_program(
                            ts,
                            self.current as int,
                        ).0));
                    }
                    statements.push(s);
                },
                Result::Err(message) => {
                    let ghost msg_view = message@;
                    let ghost errs_before = errors@;
                    errors.push(message);
                    proof {
                        assert(errors@.map_values(|s: String| s@) =~= errs_before.map_values(
                            |s: String| s@,
                        ).push(msg_view));
                    }
                    if self.current == cur0 {
                        self.synchronize();
                    }
                    proof {
                        assert(step_to(ts, cur0 as int, self.current as int)
                            == self.current as int);
                        assert(errs_before.map_values(|s: String| s@).push(msg_view)
                            =~= errs_before.map_values(|s: String| s@) + seq![msg_view]);
                        assert((errs_before.map_values(|s: String| s@) + seq![msg_view])
                            + m_program(ts, self.current as int).1 =~= errs_before.map_values(
                            |s: String| s@,
                        ) + (seq![msg_view] + m_program(ts, self.current as int).1));
                    }
                },
            }
        }
        proof {
            assert(m_program(ts, self.current as int) == (
                Seq::<StmtModel>::empty(),
                Seq::<Seq<char>>::empty(),
            ));
            assert(stmts_view(statements@, 0) + Seq::<StmtModel>::empty() =~= stmts_view(
                statements@,
                0,
            ));
            assert(errors@.map_values(|s: String| s@) + Seq::<Seq<char>>::empty()
                =~= errors@.map_values(|s: String| s@));
        }
        if errors.len() != 0 {
            let joined = crate::scanner::join_errors_exec(&errors);
            return Result::Err(joined);
        }
        Result::Ok(statements)
    }

    /// Parses one declaration: a variable declaration, a function
    /// declaration, or a statement; an error inside a variable or
    /// function declaration synchronizes before it returns.
    pub(crate) fn declaration(&mut self) -> (r: Result<Statement, String>)
        requires
            old(self).wf(),
        ensures
            final(self).wf(),
            final(self).tokens@ == old(self).tokens@,
            final(self).current >= old(self).current,
            r matches Result::Ok(s) ==> s.wf() && final(self).current > old(self).current,
            s_out(r) == m_declaration(old(self).tokens@, old(self).current as int).0,
            final(self).current as int == m_declaration(
                old(self).tokens@,
                old(self).current as int,
            ).1,
        decreases old(self).tokens@.len() - old(self).current, 16int,
    {
        let ghost ts = old(self).tokens@;
        let ghost i0 = old(self).current as int;
        if let Option::Some(_) = self.match_kind(TokenType::Var) {
            match self.variable_declaration() {
                Result::Ok(statement) => Result::Ok(statement),
                Result::Err(message) => {
                    self.synchronize();
                    Result::Err(message)
                },
            }
        } else if let Option::Some(_) = self.match_kind(TokenType::Fun) {
            match self.function_declaration() {
                Result::Ok(statement) => Result::Ok(statement),
                Result::Err(message) => {
                    self.synchronize();
                    Result::Err(message)
                },
            }
        } else {
            self.statement()
        }
    }

    /// Parses a variable declaration after its `var` keyword.
    pub(crate) fn variable_declaration(&mut self) -> (r: Result<Statement, String>)
        requires
            old(self).wf(),
        ensures
            final(self).wf(),
            final(self).tokens@ == old(self).tokens@,
            final(self).current >= old(self).current,
            r matches Result::Ok(s) ==> s.wf() && final(self).current > old(self).current,
            s_out(r) == m_var_decl(old(self).tokens@, old(self).current as int).0,
            final(self).current as int == m_var_decl(
                old(self).tokens@,
                old(self).current as int,
            ).1,
        decreases old(self).tokens@.len() - old(self).current, 15int,
    {
        let ghost ts = old(self).tokens@;
        let ghost i0 = old(self).current as int;
        let token_name = match self.consume(TokenType::Identifier, "Expect variable name") {
            Result::Ok(t) => t,
            Result::Err(e) => {
                return Result::Err(e);
            },
        };
        let mut initializer = Expression::Literal { value: RuntimeValue::Nil };
        proof {
            assert(initializer.wf());
            assert(expr_view(initializer) == (ExprModel::Literal { value: VModel::Nil }));
        }
        if let Option::Some(_) = self.match_kind(TokenType::Equal) {
            proof {
                assert(step_to(ts, i0 + 1, i0 + 2) == i0 + 2);
            }
            match self.expression() {
                Result::Ok(e) => {
                    initializer = e;
                },
                Result::Err(e) => {
                    return Result::Err(e);
                },
            }
        }
        proof {
            assert(step_to(ts, i0, self.current as int) == self.current as int);
        }
        match self.consume(TokenType::Semicolon, "Expected ';' after a variable declaration") {
            Result::Ok(_) => {
                let ghost ng = token_name;
                let ghost ig = initializer;
                let out = Statement::Variable { token: token_name, initializer };
                proof {
                    assert(stmt_view(out) == (StmtModel::Variable {
                        token: ng,
                        initializer: expr_view(ig),
                    }));
                }
                Result::Ok(out)
            },
            Result::Err(e) => Result::Err(e),
        }
    }

    /// Parses a function declaration after its `fun` keyword.
    pub(crate) fn function_declaration(&mut self) -> (r: Result<Statement, String>)
        requires
            old(self).wf(),
        ensures
            final(self).wf(),
            final(self).tokens@ == old(self).tokens@,
            final(self).current >= old(self).current,
            r matches Result::Ok(s) ==> s.wf() && final(self).current > old(self).current,
            s_out(r) == m_fun_decl(old(self).tokens@, old(self).current as int).0,
            final(self).current as int == m_fun_decl(
                old(self).tokens@,
                old(self).current as int,
            ).1,
        decreases old(self).tokens@.len() - old(self).current, 15int,
    {
        let ghost ts = old(self).tokens@;
        let ghost i0 = old(self).current as int;
        let name = match self.consume(TokenType::Identifier, "Expect function name") {
            Result::Ok(t) => t,
            Result::Err(e) => {
                return Result::Err(e);
            },
        };
        match self.consume(TokenType::LeftParen, "Expected '(' after function name") {
            Result::Ok(_) => {},
            Result::Err(e) => {
                return Result::Err(e);
            },
        }
        let ghost pstart = self.current as int;
        let mut parameters: Vec<Token> = Vec::new();
        if !self.check(TokenType::RightParen) {
            proof {
                assert(step_to(ts, i0, i0 + 2) == i0 + 2);
            }
            loop
                invariant_except_break
                    self.wf(),
                    ts == self.tokens@,
                    i0 == old(self).current as int,
                    self.tokens@ == old(self).tokens@,
                    pstart == i0 + 2,
                    tkind(ts, i0) == TokenType::Identifier,
                    tkind(ts, i0 + 1) == TokenType::LeftParen,
                    tkind(ts, i0 + 2) != TokenType::RightParen,
                    self.current >= pstart,
                    self.current <= self.tokens@.len(),
                    self.current > old(self).current,
                    ({
                        let full = m_params(ts, pstart);
                        let rest = m_params(ts, self.current as int);
                        &&& (match rest.0 {
                            Result::Ok(more) => full.0 == Result::<Seq<Token>, Seq<char>>::Ok(
                                parameters@ + more,
                            ),
                            Result::Err(m) => full.0 == Result::<Seq<Token>, Seq<char>>::Err(m),
                        })
                        &&& full.1 == rest.1
                    }),
                ensures
                    self.wf(),
                    ts == self.tokens@,
                    self.tokens@ == old(self).tokens@,
                    self.current > old(self).current,
                    self.current <= self.tokens@.len(),
                    m_params(ts, pstart).0 == Result::<Seq<Token>, Seq<char>>::Ok(parameters@),
                    m_params(ts, pstart).1 == self.current as int,
                decreases self.tokens@.len() - self.current,
            {
                let ghost k0 = self.current as int;
                let p = match self.consume(TokenType::Identifier, "Expect parameter name") {
                    Result::Ok(t) => t,
                    Result::Err(e) => {
                        proof {
                            assert(m_params(ts, k0) == (
                            Result::<Seq<Token>, Seq<char>>::Err(e@),
                            k0,
                            ));
                            assert(m_params(ts, pstart).0 == Result::<Seq<Token>, Seq<char>>::Err(
                                e@,
                            ));
                            assert(m_params(ts, pstart).1 == k0);
                            assert(step_to(ts, i0, i0 + 2) == i0 + 2);
                        }
                        return Result::Err(e);
                    },
                };
                let ghost before = parameters@;
                parameters.push(p);
                proof {
                    assert(parameters@ =~= before.push(ts[k0]));
                    assert(before.push(ts[k0]) =~= before + seq![ts[k0]]);
                }
                if let Option::Some(_) = self.match_kind(TokenType::Comma) {
                    proof {
                        assert(step_to(ts, k0, k0 + 2) == k0 + 2);
                        if m_params(ts, k0 + 2).0 is Ok {
                            let more = m_params(ts, k0 + 2).0->Ok_0;
                            assert((before + seq![ts[k0]]) + more =~= before + (seq![ts[k0]]
                                + more));
                        }
                    }
                } else {
                    proof {
                        assert(m_params(ts, k0).0 == Result::<Seq<Token>, Seq<char>>::Ok(seq![
                            ts[k0],
                        ]));
                        assert(before + seq![ts[k0]] =~= parameters@);
                    }
                    break ;
                }
            }
        }
        proof {
            if parameters@.len() == 0 {
                assert(parameters@ + Seq::<Token>::empty() =~= parameters@);
            }
        }
        let ghost ir = self.current as int;
        match self.consume(TokenType::RightParen, "Expected ')' after parameters") {
            Result::Ok(_) => {},
            Result::Err(e) => {
                return Result::Err(e);
            },
        }
        match self.consume(TokenType::LeftBrace, "Expected '{' before function body") {
            Result::Ok(_) => {},
            Result::Err(e) => {
                return Result::Err(e);
            },
        }
        proof {
            assert(step_to(ts, i0, ir + 2) == ir + 2);
        }
        match self.blocks() {
            Result::Ok(body) => {
                let ghost ng = name;
                let ghost pg = parameters@;
                let ghost bg = body@;
                let out = Statement::Function { name, parameters, body: Rc::new(body) };
                proof {
                    assert(stmt_view(out) == (StmtModel::Function {
                        name: ng,
                        parameters: pg,
                        body: stmts_view(bg, 0),
                    }));
                }
                Result::Ok(out)
            },
            Result::Err(e) => Result::Err(e),
        }
    }

    /// Parses one statement.
    pub(crate) fn statement(&mut self) -> (r: Result<Statement, String>)
        requires
            old(self).wf(),
        ensures
            final(self).wf(),
            final(self).tokens@ == old(self).tokens@,
            final(self).current >= old(self).current,
            r matches Result::Ok(s) ==> s.wf() && final(self).current > old(self).current,
            s_out(r) == m_statement(old(self).tokens@, old(self).current as int).0,
            final(self).current as int == m_statement(
                old(self).tokens@,
                old(self).current as int,
            ).1,
        decreases old(self).tokens@.len() - old(self).current, 14int,
    {
        let ghost ts = old(self).tokens@;
        let ghost i0 = old(self).current as int;
        if let Option::Some(_) = self.match_kind(TokenType::LeftBrace) {
            match self.blocks() {
                Result::Ok(statements) => {
                    let ghost sg = statements@;
                    let out = Statement::Block { statements };
                    proof {
                        assert(stmt_view(out) == (StmtModel::Block {
                            statements: stmts_view(sg, 0),
                        }));
                    }
                    Result::Ok(out)
                },
                Result::Err(e) => Result::Err(e),
            }
        } else if let Option::Some(_) = self.match_kind(TokenType::While) {
            self.while_statement()
        } else if let Option::Some(_) = self.match_kind(TokenType::For) {
            self.for_statement()
        } else if let Option::Some(_) = self.match_kind(TokenType::If) {
            self.if_statement()
        } else if let Option::Some(_) = self.match_kind(TokenType::Print) {
            self.print_statement()
        } else if let Option::Some(_) = self.match_kind(TokenType::Return) {
            self.return_statement()
        } else {
            self.expression_statement()
        }
    }

    /// Parses the declarations of a block, after its opening brace.
    #[verifier::loop_isolation(false)]
    pub(crate) fn blocks(&mut self) -> (r: Result<Vec<Statement>, String>)
        requires
            old(self).wf(),
        ensures
            final(self).wf(),
            final(self).tokens@ == old(self).tokens@,
            final(self).current >= old(self).current,
            r matches Result::Ok(stmts) ==> all_stmts_wf(stmts@, 0) && final(self).current > old(
                self,
            ).current,
            list_out(r) == m_block_list(old(self).tokens@, old(self).current as int).0,
            final(self).current as int == m_block_list(
                old(self).tokens@,
                old(self).current as int,
            ).1,
        decreases old(self).tokens@.len() - old(self).current, 17int,
    {
        let ghost ts = old(self).tokens@;
        let ghost i0 = old(self).current as int;
        let mut statements: Vec<Statement> = Vec::new();
        while !self.check(TokenType::RightBrace) && !self.is_at_end()
            invariant
                self.wf(),
                self.tokens@ == old(self).tokens@,
                self.current >= old(self).current,
                self.current <= self.tokens@.len(),
                all_stmts_wf(statements@, 0),
                ({
                    let full = m_block_list(ts, i0);
                    let rest = m_block_list(ts, self.current as int);
                    &&& (match rest.0 {
                        Result::Ok(more) => full.0 == Result::<Seq<StmtModel>, Seq<char>>::Ok(
                            stmts_view(statements@, 0) + more,
                        ),
                        Result::Err(m) => full.0 == Result::<Seq<StmtModel>, Seq<char>>::Err(m),
                    })
                    &&& full.1 == rest.1
                }),
            decreases self.tokens@.len() - self.current,
        {
            let ghost k0 = self.current as int;
            match self.declaration() {
                Result::Ok(s) => {
                    proof {
                        crate::statement::lemma_all_stmts_wf_snoc(statements@, s);
                        crate::statement::lemma_stmts_view_snoc(statements@, s);
                        assert(step_to(ts, k0, self.current as int) == self.current as int);
                        if m_block_list(ts, self.current as int).0 is Ok {
                            let more = m_block_list(ts, self.current as int).0->Ok_0;
                            assert((stmts_view(statements@, 0) + seq![stmt_view(s)]) + more
                                =~= stmts_view(statements@, 0) + (seq![stmt_view(s)] + more));
                        }
                    }
                    statements.push(s);
                },
                Result::Err(e) => {
                    return Result::Err(e);
                },
            }
        }
        proof {
            if tkind(ts, self.current as int) == TokenType::RightBrace {
                assert(stmts_view(statements@, 0) + Seq::<StmtModel>::empty() =~= stmts_view(
                    statements@,
                    0,
                ));
            }
        }
        match self.consume(TokenType::RightBrace, "Expect '}' after block") {
            Result::Ok(_) => Result::Ok(statements),
            Result::Err(e) => Result::Err(e),
        }
    }

    /// Parses a while statement after its keyword.
    pub(crate) fn while_statement(&mut self) -> (r: Result<Statement, String>)
        requires
            old(self).wf(),
        ensures
            final(self).wf(),
            final(self).tokens@ == old(self).tokens@,
            final(self).current >= old(self).current,
            r matches Result::Ok(s) ==> s.wf() && final(self).current > old(self).current,
            s_out(r) == m_while(old(self).tokens@, old(self).current as int).0,
            final(self).current as int == m_while(old(self).tokens@, old(self).current as int).1,
        decreases old(self).tokens@.len() - old(self).current, 13int,
    {
        let ghost ts = old(self).tokens@;
        let ghost i0 = old(self).current as int;
        match self.consume(TokenType::LeftParen, "Expected '(' after 'while") {
            Result::Ok(_) => {},
            Result::Err(e) => {
                return Result::Err(e);
            },
        }
        let condition = match self.expression() {
            Result::Ok(e) => e,
            Result::Err(e) => {
                return Result::Err(e);
            },
        };
        proof {
            assert(step_to(ts, i0, self.current as int) == self.current as int);
        }
        let ghost i2 = self.current as int;
        match self.consume(TokenType::RightParen, "Expected ')' after while condition") {
            Result::Ok(_) => {},
            Result::Err(e) => {
                return Result::Err(e);
            },
        }
        proof {
            assert(step_to(ts, i0, i2 + 1) == i2 + 1);
        }
        match self.statement() {
            Result::Ok(body_statement) => {
                let ghost cg = condition;
                let ghost bg = body_statement;
                let out = Statement::While { condition, body: Box::new(body_statement) };
                proof {
                    assert(stmt_view(out) == (StmtModel::While {
                        condition: expr_view(cg),
                        body: Box::new(stmt_view(bg)),
                    }));
                }
                Result::Ok(out)
            },
            Result::Err(e) => Result::Err(e),
        }
    }

    /// Parses a for statement after its keyword, desugaring it to a block
    /// around a while loop.
    #[verifier::rlimit(100)]
    #[verifier::spinoff_prover]
    pub(crate) fn for_statement(&mut self) -> (r: Result<Statement, String>)
        requires
            old(self).wf(),
        ensures
            final(self).wf(),
            final(self).tokens@ == old(self).tokens@,
            final(self).current >= old(self).current,
            r matches Result::Ok(s) ==> s.wf() && final(self).current > old(self).current,
            s_out(r) == m_for(old(self).tokens@, old(self).current as int).0,
            final(self).current as int == m_for(old(self).tokens@, old(self).current as int).1,
        decreases old(self).tokens@.len() - old(self).current, 13int,
    {
        let ghost ts = old(self).tokens@;
        let ghost i0 = old(self).current as int;
        match self.consume(TokenType::LeftParen, "Expected '(' after 'for") {
            Result::Ok(_) => {},
            Result::Err(e) => {
                return Result::Err(e);
            },
        }
        let initializer: Option<Statement>;
        if let Option::Some(_) = self.match_kind(TokenType::Semicolon) {
            initializer = Option::None;
        } else if let Option::Some(_) = self.match_kind(TokenType::Var) {
            proof {
                assert(step_to(ts, i0 + 1, i0 + 2) == i0 + 2);
            }
            match self.variable_declaration() {
                Result::Ok(s) => {
                    initializer = Option::Some(s);
                },
                Result::Err(e) => {
                    return Result::Err(e);
                },
            }
        } else {
            proof {
                assert(step_to(ts, i0, i0 + 1) == i0 + 1);
            }
            match self.expression_statement() {
                Result::Ok(s) => {
                    initializer = Option::Some(s);
                },
                Result::Err(e) => {
                    return Result::Err(e);
                },
            }
        }
        proof {
            assert(step_to(ts, i0, self.current as int) == self.current as int);
        }
        let mut condition = Expression::Literal { value: RuntimeValue::True };
        proof {
            assert(condition.wf());
            assert(expr_view(condition) == (ExprModel::Literal { value: VModel::Bool(true) }));
        }
        if !self.check(TokenType::Semicolon) {
            match self.expression() {
                Result::Ok(e) => {
                    condition = e;
                },
                Result::Err(e) => {
                    return Result::Err(e);
                },
            }
            proof {
                assert(step_to(ts, i0, self.current as int) == self.current as int);
            }
        }
        let ghost is_pos = self.current as int;
        match self.consume(TokenType::Semicolon, "Expect ';' after loop condition") {
            Result::Ok(_) => {},
            Result::Err(e) => {
                return Result::Err(e);
            },
        }
        proof {
            assert(step_to(ts, i0, is_pos + 1) == is_pos + 1);
        }
        let mut increment: Option<Expression> = Option::None;
        if !self.check(TokenType::RightParen) {
            match self.expression() {
                Result::Ok(e) => {
                    increment = Option::Some(e);
                },
                Result::Err(e) => {
                    return Result::Err(e);
                },
            }
            proof {
                assert(step_to(ts, i0, self.current as int) == self.current as int);
            }
        }
        let ghost ip_pos = self.current as int;
        match self.consume(TokenType::RightParen, "Expect ')' after for clauses") {
            Result::Ok(_) => {},
            Result::Err(e) => {
                return Result::Err(e);
            },
        }
        proof {
            assert(step_to(ts, i0, ip_pos + 1) == ip_pos + 1);
        }
        let body = match self.statement() {
            Result::Ok(s) => s,
            Result::Err(e) => {
                return Result::Err(e);
            },
        };
        Result::Ok(desugar_for(initializer, condition, increment, body))
    }
}

/// Builds the while-loop form of a for statement.
fn desugar_for(
    initializer: Option<Statement>,
    condition: Expression,
    increment: Option<Expression>,
    body0: Statement,
) -> (r: Statement)
    requires
        (initializer matches Option::Some(s) ==> s.wf()),
        condition.wf(),
        (increment matches Option::Some(e) ==> e.wf()),
        body0.wf(),
    ensures
        r.wf(),
        stmt_view(r) == m_for_desugar(
            match initializer {
                Option::Some(s) => Option::Some(stmt_view(s)),
                Option::None => Option::None,
            },
            expr_view(condition),
            match increment {
                Option::Some(e) => Option::Some(expr_view(e)),
                Option::None => Option::None,
            },
            stmt_view(body0),
        ),
{
    let mut body = body0;
    let ghost b0v = stmt_view(body0);
    if let Option::Some(inc) = increment {
            let ghost b0 = body;
            let ghost i0g = inc;
            let inc_stmt = Statement::Expression { expression: inc };
            proof {
                assert(inc_stmt matches Statement::Expression { expression: e2 } && e2 == i0g);
                assert(inc_stmt.wf());
                assert(stmt_view(inc_stmt) == (StmtModel::Expression {
                    expression: expr_view(i0g),
                }));
            }
            let ghost is0 = inc_stmt;
            let mut statements: Vec<Statement> = Vec::new();
            statements.push(body);
            statements.push(inc_stmt);
            proof {
                assert(statements@.len() == 2);
                assert(statements@[0] == b0);
                assert(statements@[1] == is0);
                assert(all_stmts_wf(statements@, 2));
                assert(all_stmts_wf(statements@, 1));
                assert(all_stmts_wf(statements@, 0));
                assert(stmts_view(statements@, 2) =~= Seq::<StmtModel>::empty());
                assert(stmts_view(statements@, 1) =~= seq![stmt_view(is0)]);
                assert(stmts_view(statements@, 0) =~= seq![stmt_view(b0), stmt_view(is0)]);
            }
            body = Statement::Block { statements };
            proof {
                assert(body.wf());
                assert(stmt_view(body) == (StmtModel::Block {
                    statements: seq![stmt_view(b0), stmt_view(is0)],
                }));
            }
        }
        let ghost c_g = condition;
        let ghost inner_g = body;
        body = Statement::While { condition, body: Box::new(body) };
        proof {
            assert(body.wf());
            assert(stmt_view(body) == (StmtModel::While {
                condition: expr_view(c_g),
                body: Box::new(stmt_view(inner_g)),
            }));
        }
        if let Option::Some(init) = initializer {
            let ghost b1 = body;
            let ghost n1 = init;
            proof {
                assert(b1.wf());
                assert(n1.wf());
            }
            let mut statements: Vec<Statement> = Vec::new();
            statements.push(init);
            statements.push(body);
            proof {
                assert(statements@.len() == 2);
                assert(statements@[0] == n1);
                assert(statements@[1] == b1);
                assert(all_stmts_wf(statements@, 2));
                assert(all_stmts_wf(statements@, 1));
                assert(all_stmts_wf(statements@, 0));
                assert(stmts_view(statements@, 2) =~= Seq::<StmtModel>::empty());
                assert(stmts_view(statements@, 1) =~= seq![stmt_view(b1)]);
                assert(stmts_view(statements@, 0) =~= seq![stmt_view(n1), stmt_view(b1)]);
            }
            body = Statement::Block { statements };
            proof {
                assert(body.wf());
                assert(stmt_view(body) == (StmtModel::Block {
                    statements: seq![stmt_view(n1), stmt_view(b1)],
                }));
            }
        }
        body
    }

impl Parser {
    /// Parses a print statement after its keyword.
    pub(crate) fn print_statement(&mut self) -> (r: Result<Statement, String>)
        requires
            old(self).wf(),
        ensures
            final(self).wf(),
            final(self).tokens@ == old(self).tokens@,
            final(self).current >= old(self).current,
            r matches Result::Ok(s) ==> s.wf() && final(self).current > old(self).current,
            s_out(r) == m_print(old(self).tokens@, old(self).current as int).0,
            final(self).current as int == m_print(
                old(self).tokens@,
                old(self).current as int,
            ).1,
        decreases old(self).tokens@.len() - old(self).current, 13int,
    {
        let ghost ts = old(self).tokens@;
        let ghost i0 = old(self).current as int;
        let expression = match self.expression() {
            Result::Ok(e) => e,
            Result::Err(e) => {
                return Result::Err(e);
            },
        };
        proof {
            assert(step_to(ts, i0, self.current as int) == self.current as int);
        }
        match self.consume(TokenType::Semicolon, "Expected ';' after the value.") {
            Result::Ok(_) => {
                let ghost ev = expression;
                let out = Statement::Print { expression };
                proof {
                    assert(stmt_view(out) == (StmtModel::Print { expression: expr_view(ev) }));
                }
                Result::Ok(out)
            },
            Result::Err(e) => Result::Err(e),
        }
    }

    /// Parses a return statement after its keyword.
    pub(crate) fn return_statement(&mut self) -> (r: Result<Statement, String>)
        requires
            old(self).wf(),
        ensures
            final(self).wf(),
            final(self).tokens@ == old(self).tokens@,
            final(self).current >= old(self).current,
            r matches Result::Ok(s) ==> s.wf() && final(self).current > old(self).current,
            s_out(r) == m_return(old(self).tokens@, old(self).current as int).0,
            final(self).current as int == m_return(old(self).tokens@, old(self).current as int).1,
        decreases old(self).tokens@.len() - old(self).current, 13int,
    {
        let ghost ts = old(self).tokens@;
        let ghost i0 = old(self).current as int;
        let mut value: Option<Expression> = Option::None;
        if !self.check(TokenType::Semicolon) {
            match self.expression() {
                Result::Ok(e) => {
                    value = Option::Some(e);
                },
                Result::Err(e) => {
                    return Result::Err(e);
                },
            }
            proof {
                assert(step_to(ts, i0, self.current as int) == self.current as int);
            }
        }
        match self.consume(TokenType::Semicolon, "Expected ';' after return value") {
            Result::Ok(_) => {
                let ghost vg = value;
                let out = Statement::Return { value };
                proof {
                    assert(stmt_view(out) == (StmtModel::Return {
                        value: match vg {
                            Option::Some(e) => Option::Some(expr_view(e)),
                            Option::None => Option::None,
                        },
                    }));
                }
                Result::Ok(out)
            },
            Result::Err(e) => Result::Err(e),
        }
    }

    /// Parses an expression statement.
    pub(crate) fn expression_statement(&mut self) -> (r: Result<Statement, String>)
        requires
            old(self).wf(),
        ensures
            final(self).wf(),
            final(self).tokens@ == old(self).tokens@,
            final(self).current >= old(self).current,
            r matches Result::Ok(s) ==> s.wf() && final(self).current > old(self).current,
            s_out(r) == m_expr_stmt(old(self).tokens@, old(self).current as int).0,
            final(self).current as int == m_expr_stmt(
                old(self).tokens@,
                old(self).current as int,
            ).1,
        decreases old(self).tokens@.len() - old(self).current, 12int,
    {
        let ghost ts = old(self).tokens@;
        let ghost i0 = old(self).current as int;
        let expression = match self.expression() {
            Result::Ok(e) => e,
            Result::Err(e) => {
                return Result::Err(e);
            },
        };
        proof {
            assert(step_to(ts, i0, self.current as int) == self.current as int);
        }
        match self.consume(TokenType::Semicolon, "Expected ';' after the value.") {
            Result::Ok(_) => {
                let ghost ev = expression;
                let out = Statement::Expression { expression };
                proof {
                    assert(stmt_view(out) == (StmtModel::Expression { expression: expr_view(ev) }));
                }
                Result::Ok(out)
            },
            Result::Err(e) => Result::Err(e),
        }
    }

    /// Parses an if statement after its keyword.
    pub(crate) fn if_statement(&mut self) -> (r: Result<Statement, String>)
        requires
            old(self).wf(),
        ensures
            final(self).wf(),
            final(self).tokens@ == old(self).tokens@,
            final(self).current >= old(self).current,
            r matches Result::Ok(s) ==> s.wf() && final(self).current > old(self).current,
            s_out(r) == m_if(old(self).tokens@, old(self).current as int).0,
            final(self).current as int == m_if(old(self).tokens@, old(self).current as int).1,
        decreases old(self).tokens@.len() - old(self).current, 13int,
    {
        let ghost ts = old(self).tokens@;
        let ghost i0 = old(self).current as int;
        match self.consume(TokenType::LeftParen, "Expected '(' after 'if'") {
            Result::Ok(_) => {},
            Result::Err(e) => {
                return Result::Err(e);
            },
        }
        let condition = match self.expression() {
            Result::Ok(e) => e,
            Result::Err(e) => {
                return Result::Err(e);
            },
        };
        proof {
            assert(step_to(ts, i0, self.current as int) == self.current as int);
        }
        let ghost i2 = self.current as int;
        match self.consume(TokenType::RightParen, "Expected ')' after if condition") {
            Result::Ok(_) => {},
            Result::Err(e) => {
                return Result::Err(e);
            },
        }
        proof {
            assert(step_to(ts, i0, i2 + 1) == i2 + 1);
        }
        let then_statement = match self.statement() {
            Result::Ok(s) => s,
            Result::Err(e) => {
                return Result::Err(e);
            },
        };
        proof {
            assert(step_to(ts, i0, self.current as int) == self.current as int);
        }
        let ghost ie = self.current as int;
        let then_branch = Box::new(then_statement);
        let mut else_branch: Option<Box<Statement>> = Option::None;
        if let Option::Some(_) = self.match_kind(TokenType::Else) {
            proof {
                assert(step_to(ts, i0, ie + 1) == ie + 1);
            }
            match self.statement() {
                Result::Ok(s) => {
                    else_branch = Option::Some(Box::new(s));
                },
                Result::Err(e) => {
                    return Result::Err(e);
                },
            }
        }
        let ghost cg = condition;
        let ghost tg = then_branch;
        let ghost eg = else_branch;
        let out = Statement::If { condition, then_branch, else_branch };
        proof {
            assert(stmt_view(out) == (StmtModel::If {
                condition: expr_view(cg),
                then_branch: Box::new(stmt_view(*tg)),
                else_branch: match eg {
                    Option::Some(b) => Option::Some(Box::new(stmt_view(*b))),
                    Option::None => Option::None,
                },
            }));
        }
        Result::Ok(out)
    }

    /// Parses an expression.
    pub fn expression(&mut self) -> (r: Result<Expression, String>)
        requires
            old(self).wf(),
        ensures
            final(self).wf(),
            final(self).tokens@ == old(self).tokens@,
            final(self).current >= old(self).current,
            r matches Result::Ok(e) ==> e.wf() && final(self).current > old(self).current,
            e_out(r) == m_expression(old(self).tokens@, old(self).current as int).0,
            final(self).current as int == m_expression(
                old(self).tokens@,
                old(self).current as int,
            ).1,
        decreases old(self).tokens@.len() - old(self).current, 11int,
    {
        self.assignment()
    }

    /// Parses an assignment or anything of higher precedence; only a bare
    /// variable is a valid assignment target.
    pub fn assignment(&mut self) -> (r: Result<Expression, String>)
        requires
            old(self).wf(),
        ensures
            final(self).wf(),
            final(self).tokens@ == old(self).tokens@,
            final(self).current >= old(self).current,
            r matches Result::Ok(e) ==> e.wf() && final(self).current > old(self).current,
            e_out(r) == m_assignment(old(self).tokens@, old(self).current as int).0,
            final(self).current as int == m_assignment(
                old(self).tokens@,
                old(self).current as int,
            ).1,
        decreases old(self).tokens@.len() - old(self).current, 10int,
    {
        let ghost ts = old(self).tokens@;
        let ghost i0 = old(self).current as int;
        let expression = match self.or() {
            Result::Ok(e) => e,
            Result::Err(e) => {
                return Result::Err(e);
            },
        };
        proof {
            assert(step_to(ts, i0, self.current as int) == self.current as int);
        }
        let ghost ie = self.current as int;
        if let Option::Some(equals) = self.match_kind(TokenType::Equal) {
            proof {
                assert(step_to(ts, ie, ie + 1) == ie + 1);
            }
            let value = match self.assignment() {
                Result::Ok(e) => e,
                Result::Err(e) => {
                    return Result::Err(e);
                },
            };
            match expression {
                Expression::Variable { token } => {
                    let ghost vv = value;
                    let ghost name_tok = token;
                    let out = Expression::Assign { name: token.lexeme, value: Box::new(value) };
                    proof {
                        assert(expr_view(out) == (ExprModel::Assign {
                            name: name_tok.lexeme@,
                            value: Box::new(expr_view(vv)),
                        }));
                    }
                    Result::Ok(out)
                },
                _ => {
                    let mut msg = String::new();
                    msg.append("Invalid assignment target ");
                    msg.append(equals.lexeme.as_str());
                    proof {
                        assert(msg@ =~= invalid_target_chars(ts[ie]));
                    }
                    Result::Err(msg)
                },
            }
        } else {
            Result::Ok(expression)
        }
    }

    /// Parses a disjunction.
    #[verifier::loop_isolation(false)]
    pub fn or(&mut self) -> (r: Result<Expression, String>)
        requires
            old(self).wf(),
        ensures
            final(self).wf(),
            final(self).tokens@ == old(self).tokens@,
            final(self).current >= old(self).current,
            r matches Result::Ok(e) ==> e.wf() && final(self).current > old(self).current,
            e_out(r) == m_chain(old(self).tokens@, 10, old(self).current as int).0,
            final(self).current as int == m_chain(
                old(self).tokens@,
                10,
                old(self).current as int,
            ).1,
        decreases old(self).tokens@.len() - old(self).current, 9int,
    {
        let ghost ts = old(self).tokens@;
        let ghost i0 = old(self).current as int;
        proof {
            assert(m_operand(ts, 10, i0) == m_chain(ts, 9, i0));
        }
        let mut expression = match self.and() {
            Result::Ok(e) => e,
            Result::Err(e) => {
                return Result::Err(e);
            },
        };
        proof {
            assert(step_to(ts, i0, self.current as int) == self.current as int);
        }
        loop
            invariant
                self.wf(),
                self.tokens@ == old(self).tokens@,
                self.current > old(self).current,
                self.current <= self.tokens@.len(),
                expression.wf(),
                m_chain(ts, 10, i0) == m_chain_rest(
                    ts,
                    10,
                    expr_view(expression),
                    self.current as int,
                ),
            decreases self.tokens@.len() - self.current,
        {
            let ghost cur = self.current as int;
            if let Option::Some(operator) = self.match_kind(TokenType::Or) {
                proof {
                    assert(chain_op(10, tkind(ts, cur)));
                    assert(step_to(ts, cur, cur + 1) == cur + 1);
                    assert(m_operand(ts, 10, cur + 1) == m_chain(ts, 9, cur + 1));
                }
                let right = match self.and() {
                    Result::Ok(e) => e,
                    Result::Err(e) => {
                        return Result::Err(e);
                    },
                };
                proof {
                    assert(step_to(ts, cur, self.current as int) == self.current as int);
                }
                let ghost prev = expression;
                let ghost rv = right;
                expression = Expression::Logical {
                    left: Box::new(expression),
                    operator,
                    right: Box::new(right),
                };
                proof {
                    assert(expr_view(expression) == (ExprModel::Logical {
                        operator: ts[cur],
                        left: Box::new(expr_view(prev)),
                        right: Box::new(expr_view(rv)),
                    }));
                }
            } else {
                proof {
                    assert(!chain_op(10, tkind(ts, cur)));
                }
                return Result::Ok(expression);
            }
        }
    }

    /// Parses a conjunction.
    #[verifier::loop_isolation(false)]
    pub fn and(&mut self) -> (r: Result<Expression, String>)
        requires
            old(self).wf(),
        ensures
            final(self).wf(),
            final(self).tokens@ == old(self).tokens@,
            final(self).current >= old(self).current,
            r matches Result::Ok(e) ==> e.wf() && final(self).current > old(self).current,
            e_out(r) == m_chain(old(self).tokens@, 9, old(self).current as int).0,
            final(self).current as int == m_chain(
                old(self).tokens@,
                9,
                old(self).current as int,
            ).1,
        decreases old(self).tokens@.len() - old(self).current, 8int,
    {
        let ghost ts = old(self).tokens@;
        let ghost i0 = old(self).current as int;
        proof {
            assert(m_operand(ts, 9, i0) == m_chain(ts, 8, i0));
        }
        let mut expression = match self.equality() {
            Result::Ok(e) => e,
            Result::Err(e) => {
                return Result::Err(e);
            },
        };
        proof {
            assert(step_to(ts, i0, self.current as int) == self.current as int);
        }
        loop
            invariant
                self.wf(),
                self.tokens@ == old(self).tokens@,
                self.current > old(self).current,
                self.current <= self.tokens@.len(),
                expression.wf(),
                m_chain(ts, 9, i0) == m_chain_rest(
                    ts,
                    9,
                    expr_view(expression),
                    self.current as int,
                ),
            decreases self.tokens@.len() - self.current,
        {
            let ghost cur = self.current as int;
            if let Option::Some(operator) = self.match_kind(TokenType::And) {
                proof {
                    assert(chain_op(9, tkind(ts, cur)));
                    assert(step_to(ts, cur, cur + 1) == cur + 1);
                    assert(m_operand(ts, 9, cur + 1) == m_chain(ts, 8, cur + 1));
                }
                let right = match self.equality() {
                    Result::Ok(e) => e,
                    Result::Err(e) => {
                        return Result::Err(e);
                    },
                };
                proof {
                    assert(step_to(ts, cur, self.current as int) == self.current as int);
                }
                let ghost prev = expression;
                let ghost rv = right;
                expression = Expression::Logical {
                    left: Box::new(expression),
                    operator,
                    right: Box::new(right),
                };
                proof {
                    assert(expr_view(expression) == (ExprModel::Logical {
                        operator: ts[cur],
                        left: Box::new(expr_view(prev)),
                        right: Box::new(expr_view(rv)),
                    }));
                }
            } else {
                proof {
                    assert(!chain_op(9, tkind(ts, cur)));
                }
                return Result::Ok(expression);
            }
        }
    }

    /// Parses an equality chain.
    #[verifier::loop_isolation(false)]
    pub(crate) fn equality(&mut self) -> (r: Result<Expression, String>)
        requires
            old(self).wf(),
        ensures
            final(self).wf(),
            final(self).tokens@ == old(self).tokens@,
            final(self).current >= old(self).current,
            r matches Result::Ok(e) ==> e.wf() && final(self).current > old(self).current,
            e_out(r) == m_chain(old(self).tokens@, 8, old(self).current as int).0,
            final(self).current as int == m_chain(
                old(self).tokens@,
                8,
                old(self).current as int,
            ).1,
        decreases old(self).tokens@.len() - old(self).current, 7int,
    {
        let ghost ts = old(self).tokens@;
        let ghost i0 = old(self).current as int;
        proof {
            assert(m_operand(ts, 8, i0) == m_chain(ts, 7, i0));
        }
        let mut expression = match self.comparison() {
            Result::Ok(e) => e,
            Result::Err(e) => {
                return Result::Err(e);
            },
        };
        proof {
            assert(step_to(ts, i0, self.current as int) == self.current as int);
        }
        loop
            invariant
                self.wf(),
                self.tokens@ == old(self).tokens@,
                self.current > old(self).current,
                self.current <= self.tokens@.len(),
                expression.wf(),
                m_chain(ts, 8, i0) == m_chain_rest(
                    ts,
                    8,
                    expr_view(expression),
                    self.current as int,
                ),
            decreases self.tokens@.len() - self.current,
        {
            let ghost cur = self.current as int;
            let operator_opt = if let Option::Some(t) = self.match_kind(TokenType::BangEqual) {
                Option::Some(t)
            } else {
                self.match_kind(TokenType::EqualEqual)
            };
            if let Option::Some(operator) = operator_opt {
                proof {
                    assert(chain_op(8, tkind(ts, cur)));
                    assert(step_to(ts, cur, cur + 1) == cur + 1);
                    assert(m_operand(ts, 8, cur + 1) == m_chain(ts, 7, cur + 1));
                }
                let right = match self.comparison() {
                    Result::Ok(e) => e,
                    Result::Err(e) => {
                        return Result::Err(e);
                    },
                };
                proof {
                    assert(step_to(ts, cur, self.current as int) == self.current as int);
                }
                let ghost prev = expression;
                let ghost rv = right;
                expression = Expression::Binary {
                    left: Box::new(expression),
                    operator,
                    right: Box::new(right),
                };
                proof {
                    assert(expr_view(expression) == (ExprModel::Binary {
                        operator: ts[cur],
                        left: Box::new(expr_view(prev)),
                        right: Box::new(expr_view(rv)),
                    }));
                }
            } else {
                proof {
                    assert(!chain_op(8, tkind(ts, cur)));
                }
                return Result::Ok(expression);
            }
        }
    }

    /// Parses a comparison chain.
    #[verifier::loop_isolation(false)]
    pub(crate) fn comparison(&mut self) -> (r: Result<Expression, String>)
        requires
            old(self).wf(),
        ensures
            final(self).wf(),
            final(self).tokens@ == old(self).tokens@,
            final(self).current >= old(self).current,
            r matches Result::Ok(e) ==> e.wf() && final(self).current > old(self).current,
            e_out(r) == m_chain(old(self).tokens@, 7, old(self).current as int).0,
            final(self).current as int == m_chain(
                old(self).tokens@,
                7,
                old(self).current as int,
            ).1,
        decreases old(self).tokens@.len() - old(self).current, 6int,
    {
        let ghost ts = old(self).tokens@;
        let ghost i0 = old(self).current as int;
        proof {
            assert(m_operand(ts, 7, i0) == m_chain(ts, 6, i0));
        }
        let mut expression = match self.term() {
            Result::Ok(e) => e,
            Result::Err(e) => {
                return Result::Err(e);
            },
        };
        proof {
            assert(step_to(ts, i0, self.current as int) == self.current as int);
        }
        loop
            invariant
                self.wf(),
                self.tokens@ == old(self).tokens@,
                self.current > old(self).current,
                self.current <= self.tokens@.len(),
                expression.wf(),
                m_chain(ts, 7, i0) == m_chain_rest(
                    ts,
                    7,
                    expr_view(expression),
                    self.current as int,
                ),
            decreases self.tokens@.len() - self.current,
        {
            let ghost cur = self.current as int;
            let operator_opt = if let Option::Some(t) = self.match_kind(TokenType::Greater) {
                Option::Some(t)
            } else if let Option::Some(t) = self.match_kind(TokenType::GreaterEqual) {
                Option::Some(t)
            } else if let Option::Some(t) = self.match_kind(TokenType::Less) {
                Option::Some(t)
            } else {
                self.match_kind(TokenType::LessEqual)
            };
            if let Option::Some(operator) = operator_opt {
                proof {
                    assert(chain_op(7, tkind(ts, cur)));
                    assert(step_to(ts, cur, cur + 1) == cur + 1);
                    assert(m_operand(ts, 7, cur + 1) == m_chain(ts, 6, cur + 1));
                }
                let right = match self.term() {
                    Result::Ok(e) => e,
                    Result::Err(e) => {
                        return Result::Err(e);
                    },
                };
                proof {
                    assert(step_to(ts, cur, self.current as int) == self.current as int);
                }
                let ghost prev = expression;
                let ghost rv = right;
                expression = Expression::Binary {
                    left: Box::new(expression),
                    operator,
                    right: Box::new(right),
                };
                proof {
                    assert(expr_view(expression) == (ExprModel::Binary {
                        operator: ts[cur],
                        left: Box::new(expr_view(prev)),
                        right: Box::new(expr_view(rv)),
                    }));
                }
            } else {
                proof {
                    assert(!chain_op(7, tkind(ts, cur)));
                }
                return Result::Ok(expression);
            }
        }
    }

    /// Parses an additive chain.
    #[verifier::loop_isolation(false)]
    pub(crate) fn term(&mut self) -> (r: Result<Expression, String>)
        requires
            old(self).wf(),
        ensures
            final(self).wf(),
            final(self).tokens@ == old(self).tokens@,
            final(self).current >= old(self).current,
            r matches Result::Ok(e) ==> e.wf() && final(self).current > old(self).current,
            e_out(r) == m_chain(old(self).tokens@, 6, old(self).current as int).0,
            final(self).current as int == m_chain(
                old(self).tokens@,
                6,
                old(self).current as int,
            ).1,
        decreases old(self).tokens@.len() - old(self).current, 5int,
    {
        let ghost ts = old(self).tokens@;
        let ghost i0 = old(self).current as int;
        proof {
            assert(m_operand(ts, 6, i0) == m_chain(ts, 5, i0));
        }
        let mut expression = match self.factor() {
            Result::Ok(e) => e,
            Result::Err(e) => {
                return Result::Err(e);
            },
        };
        proof {
            assert(step_to(ts, i0, self.current as int) == self.current as int);
        }
        loop
            invariant
                self.wf(),
                self.tokens@ == old(self).tokens@,
                self.current > old(self).current,
                self.current <= self.tokens@.len(),
                expression.wf(),
                m_chain(ts, 6, i0) == m_chain_rest(
                    ts,
                    6,
                    expr_view(expression),
                    self.current as int,
                ),
            decreases self.tokens@.len() - self.current,
        {
            let ghost cur = self.current as int;
            let operator_opt = if let Option::Some(t) = self.match_kind(TokenType::Minus) {
                Option::Some(t)
            } else {
                self.match_kind(TokenType::Plus)
            };
            if let Option::Some(operator) = operator_opt {
                proof {
                    assert(chain_op(6, tkind(ts, cur)));
                    assert(step_to(ts, cur, cur + 1) == cur + 1);
                    assert(m_operand(ts, 6, cur + 1) == m_chain(ts, 5, cur + 1));
                }
                let right = match self.factor() {
                    Result::Ok(e) => e,
                    Result::Err(e) => {
                        return Result::Err(e);
                    },
                };
                proof {
                    assert(step_to(ts, cur, self.current as int) == self.current as int);
                }
                let ghost prev = expression;
                let ghost rv = right;
                expression = Expression::Binary {
                    left: Box::new(expression),
                    operator,
                    right: Box::new(right),
                };
                proof {
                    assert(expr_view(expression) == (ExprModel::Binary {
                        operator: ts[cur],
                        left: Box::new(expr_view(prev)),
                        right: Box::new(expr_view(rv)),
                    }));
                }
            } else {
                proof {
                    assert(!chain_op(6, tkind(ts, cur)));
                }
                return Result::Ok(expression);
            }
        }
    }

    /// Parses a multiplicative chain.
    #[verifier::loop_isolation(false)]
    pub(crate) fn factor(&mut self) -> (r: Result<Expression, String>)
        requires
            old(self).wf(),
        ensures
            final(self).wf(),
            final(self).tokens@ == old(self).tokens@,
            final(self).current >= old(self).current,
            r matches Result::Ok(e) ==> e.wf() && final(self).current > old(self).current,
            e_out(r) == m_chain(old(self).tokens@, 5, old(self).current as int).0,
            final(self).current as int == m_chain(
                old(self).tokens@,
                5,
                old(self).current as int,
            ).1,
        decreases old(self).tokens@.len() - old(self).current, 4int,
    {
        let ghost ts = old(self).tokens@;
        let ghost i0 = old(self).current as int;
        proof {
            assert(m_operand(ts, 5, i0) == m_unary(ts, i0));
        }
        let mut expression = match self.unary() {
            Result::Ok(e) => e,
            Result::Err(e) => {
                return Result::Err(e);
            },
        };
        proof {
            assert(step_to(ts, i0, self.current as int) == self.current as int);
        }
        loop
            invariant
                self.wf(),
                self.tokens@ == old(self).tokens@,
                self.current > old(self).current,
                self.current <= self.tokens@.len(),
                expression.wf(),
                m_chain(ts, 5, i0) == m_chain_rest(
                    ts,
                    5,
                    expr_view(expression),
                    self.current as int,
                ),
            decreases self.tokens@.len() - self.current,
        {
            let ghost cur = self.current as int;
            let operator_opt = if let Option::Some(t) = self.match_kind(TokenType::Slash) {
                Option::Some(t)
            } else {
                self.match_kind(TokenType::Star)
            };
            if let Option::Some(operator) = operator_opt {
                proof {
                    assert(chain_op(5, tkind(ts, cur)));
                    assert(step_to(ts, cur, cur + 1) == cur + 1);
                    assert(m_operand(ts, 5, cur + 1) == m_unary(ts, cur + 1));
                }
                let right = match self.unary() {
                    Result::Ok(e) => e,
                    Result::Err(e) => {
                        return Result::Err(e);
                    },
                };
                proof {
                    assert(step_to(ts, cur, self.current as int) == self.current as int);
                }
                let ghost prev = expression;
                let ghost rv = right;
                expression = Expression::Binary {
                    left: Box::new(expression),
                    operator,
                    right: Box::new(right),
                };
                proof {
                    assert(expr_view(expression) == (ExprModel::Binary {
                        operator: ts[cur],
                        left: Box::new(expr_view(prev)),
                        right: Box::new(expr_view(rv)),
                    }));
                }
            } else {
                proof {
                    assert(!chain_op(5, tkind(ts, cur)));
                }
                return Result::Ok(expression);
            }
        }
    }

    /// Parses a unary negation chain.
    pub(crate) fn unary(&mut self) -> (r: Result<Expression, String>)
        requires
            old(self).wf(),
        ensures
            final(self).wf(),
            final(self).tokens@ == old(self).tokens@,
            final(self).current >= old(self).current,
            r matches Result::Ok(e) ==> e.wf() && final(self).current > old(self).current,
            e_out(r) == m_unary(old(self).tokens@, old(self).current as int).0,
            final(self).current as int == m_unary(old(self).tokens@, old(self).current as int).1,
        decreases old(self).tokens@.len() - old(self).current, 3int,
    {
        let ghost ts = old(self).tokens@;
        let ghost i0 = old(self).current as int;
        let operator = if let Option::Some(t) = self.match_kind(TokenType::Bang) {
            Option::Some(t)
        } else {
            self.match_kind(TokenType::Minus)
        };
        if let Option::Some(op) = operator {
            match self.unary() {
                Result::Ok(right) => {
                    let ghost rv = right;
                    let out = Expression::Unary { operator: op, right: Box::new(right) };
                    proof {
                        assert(expr_view(out) == (ExprModel::Unary {
                            operator: ts[i0],
                            right: Box::new(expr_view(rv)),
                        }));
                    }
                    Result::Ok(out)
                },
                Result::Err(e) => Result::Err(e),
            }
        } else {
            self.call_expression()
        }
    }

    /// Parses a call chain: a primary expression followed by any number of
    /// Parses a call chain: a primary expression followed by any number of
    /// argument lists.
    #[verifier::rlimit(60)]
    pub(crate) fn call_expression(&mut self) -> (r: Result<Expression, String>)
        requires
            old(self).wf(),
        ensures
            final(self).wf(),
            final(self).tokens@ == old(self).tokens@,
            final(self).current >= old(self).current,
            r matches Result::Ok(e) ==> e.wf() && final(self).current > old(self).current,
            e_out(r) == m_call_expr(old(self).tokens@, old(self).current as int).0,
            final(self).current as int == m_call_expr(
                old(self).tokens@,
                old(self).current as int,
            ).1,
        decreases old(self).tokens@.len() - old(self).current, 2int,
    {
        let ghost ts = old(self).tokens@;
        let ghost i0 = old(self).current as int;
        let mut expression = match self.primary() {
            Result::Ok(e) => e,
            Result::Err(e) => {
                return Result::Err(e);
            },
        };
        proof {
            assert(step_to(ts, i0, self.current as int) == self.current as int);
        }
        loop
            invariant
                self.wf(),
                ts == self.tokens@,
                i0 == old(self).current as int,
                self.tokens@ == old(self).tokens@,
                self.current > old(self).current,
                self.current <= self.tokens@.len(),
                expression.wf(),
                m_call_expr(ts, i0) == m_call_rest(ts, expr_view(expression), self.current as int),
            decreases self.tokens@.len() - self.current,
        {
            let ghost cur = self.current as int;
            if let Option::Some(_) = self.match_kind(TokenType::LeftParen) {
                let ghost argstart = self.current as int;
                let mut arguments: Vec<Expression> = Vec::new();
                if !self.check(TokenType::RightParen) {
                    proof {
                        assert(tkind(ts, cur + 1) != TokenType::RightParen);
                    }
                    loop
                        invariant_except_break
                            self.wf(),
                            ts == self.tokens@,
                            i0 == old(self).current as int,
                            self.tokens@ == old(self).tokens@,
                            argstart == cur + 1,
                            tkind(ts, cur) == TokenType::LeftParen,
                            tkind(ts, cur + 1) != TokenType::RightParen,
                            m_call_expr(ts, i0) == m_call_rest(
                                ts,
                                expr_view(expression),
                                cur,
                            ),
                            self.current >= argstart,
                            self.current <= self.tokens@.len(),
                            self.current > old(self).current,
                            all_exprs_wf(arguments@, 0),
                            ({
                                let full = m_args(ts, argstart);
                                let rest = m_args(ts, self.current as int);
                                &&& (match rest.0 {
                                    Result::Ok(more) => full.0 == Result::<
                                        Seq<ExprModel>,
                                        Seq<char>,
                                    >::Ok(exprs_view(arguments@, 0) + more),
                                    Result::Err(m) => full.0 == Result::<
                                        Seq<ExprModel>,
                                        Seq<char>,
                                    >::Err(m),
                                })
                                &&& full.1 == rest.1
                            }),
                        ensures
                            self.wf(),
                            ts == self.tokens@,
                            self.tokens@ == old(self).tokens@,
                            self.current > old(self).current,
                            self.current >= argstart,
                            argstart == cur + 1,
                            tkind(ts, cur) == TokenType::LeftParen,
                            tkind(ts, cur + 1) != TokenType::RightParen,
                            self.current <= self.tokens@.len(),
                            all_exprs_wf(arguments@, 0),
                            m_args(ts, argstart).0 == Result::<Seq<ExprModel>, Seq<char>>::Ok(
                                exprs_view(arguments@, 0),
                            ),
                            m_args(ts, argstart).1 == self.current as int,
                        decreases self.tokens@.len() - self.current,
                    {
                        let ghost k0 = self.current as int;
                        let ghost acc0 = arguments@;
                        match self.expression() {
                            Result::Ok(a) => {
                                proof {
                                    crate::expression::lemma_all_exprs_wf_snoc(arguments@, a);
                                    assert(step_to(ts, k0, self.current as int)
                                        == self.current as int);
                                    crate::expression::lemma_exprs_view_snoc(arguments@, a);
                                }
                                arguments.push(a);
                            },
                            Result::Err(e) => {
                                proof {
                                    assert(m_args(ts, argstart).0 == Result::<
                                        Seq<ExprModel>,
                                        Seq<char>,
                                    >::Err(e@));
                                    assert(m_args(ts, argstart).1 == self.current as int);
                                    assert(m_call_rest(ts, expr_view(expression), cur) == (
                                    Result::<ExprModel, Seq<char>>::Err(e@),
                                    self.current as int,
                                    ));
                                }
                                return Result::Err(e);
                            },
                        }
                        let ghost av = exprs_view(arguments@, 0).last();
                        proof {
                            assert(exprs_view(arguments@, 0) =~= exprs_view(acc0, 0) + seq![av]);
                        }
                        let ghost k2 = self.current as int;
                        if let Option::Some(_) = self.match_kind(TokenType::Comma) {
                            proof {
                                assert(step_to(ts, k2, k2 + 1) == k2 + 1);
                                if m_args(ts, k2 + 1).0 is Ok {
                                    let more = m_args(ts, k2 + 1).0->Ok_0;
                                    assert((exprs_view(acc0, 0) + seq![av]) + more =~= exprs_view(
                                        acc0,
                                        0,
                                    ) + (seq![av] + more));
                                }
                            }
                        } else {
                            proof {
                                assert(m_args(ts, k0).0 == Result::<Seq<ExprModel>, Seq<char>>::Ok(
                                    seq![av],
                                ));
                                assert(exprs_view(acc0, 0) + seq![av] =~= exprs_view(
                                    arguments@,
                                    0,
                                ));
                            }
                            break ;
                        }
                    }
                }
                proof {
                    if arguments@.len() == 0 {
                        assert(exprs_view(arguments@, 0) =~= Seq::<ExprModel>::empty());
                    }
                    assert(step_to(ts, cur, self.current as int) == self.current as int);
                }
                let ghost ic = self.current as int;
                let closing = match self.consume(
                    TokenType::RightParen,
                    "Expected ')' after arguments",
                ) {
                    Result::Ok(t) => t,
                    Result::Err(e) => {
                        proof {
                            assert(m_call_rest(ts, expr_view(expression), cur) == (
                            Result::<ExprModel, Seq<char>>::Err(e@),
                            ic,
                            ));
                        }
                        return Result::Err(e);
                    },
                };
                let ghost prev_e = expression;
                let ghost args_g = arguments@;
                expression = Expression::Call {
                    callee: Box::new(expression),
                    arguments,
                    line: closing.line,
                };
                proof {
                    assert(expr_view(expression) == (ExprModel::Call {
                        callee: Box::new(expr_view(prev_e)),
                        arguments: exprs_view(args_g, 0),
                        line: closing.line as nat,
                    }));
                    assert(step_to(ts, cur, ic + 1) == ic + 1);
                    assert(m_call_rest(ts, expr_view(prev_e), cur) == m_call_rest(
                        ts,
                        expr_view(expression),
                        ic + 1,
                    ));
                }
            } else {
                return Result::Ok(expression);
            }
        }
    }

    /// Parses a primary expression: a literal, a variable, or a
    /// parenthesized grouping.
    #[verifier::rlimit(100)]
    #[verifier::spinoff_prover]
    pub(crate) fn primary(&mut self) -> (r: Result<Expression, String>)
        requires
            old(self).wf(),
        ensures
            final(self).wf(),
            final(self).tokens@ == old(self).tokens@,
            final(self).current >= old(self).current,
            r matches Result::Ok(e) ==> e.wf() && final(self).current > old(self).current,
            e_out(r) == m_primary(old(self).tokens@, old(self).current as int).0,
            final(self).current as int == m_primary(
                old(self).tokens@,
                old(self).current as int,
            ).1,
        decreases old(self).tokens@.len() - old(self).current, 1int,
    {
        let ghost ts = old(self).tokens@;
        let ghost i0 = old(self).current as int;
        if let Option::Some(_) = self.match_kind(TokenType::False) {
            return Result::Ok(Expression::Literal { value: RuntimeValue::False });
        }
        if let Option::Some(_) = self.match_kind(TokenType::True) {
            return Result::Ok(Expression::Literal { value: RuntimeValue::True });
        }
        if let Option::Some(_) = self.match_kind(TokenType::Nil) {
            return Result::Ok(Expression::Literal { value: RuntimeValue::Nil });
        }
        if let Option::Some(token) = self.match_kind(TokenType::Identifier) {
            return Result::Ok(Expression::Variable { token });
        }
        if let Option::Some(_) = self.match_kind(TokenType::LeftParen) {
            let expression = match self.expression() {
                Result::Ok(e) => e,
                Result::Err(e) => {
                    return Result::Err(e);
                },
            };
            proof {
                assert(step_to(ts, i0, self.current as int) == self.current as int);
            }
            match self.consume(TokenType::RightParen, "Expected )") {
                Result::Ok(_) => {
                    let ghost eg = expression;
                    let out = Expression::Grouping { group: Box::new(expression) };
                    proof {
                        assert(expr_view(out) == (ExprModel::Grouping {
                            group: Box::new(expr_view(eg)),
                        }));
                    }
                    return Result::Ok(out);
                },
                Result::Err(e) => {
                    return Result::Err(e);
                },
            }
        }
        let string_tok = self.match_kind(TokenType::String);
        let token = match string_tok {
            Option::Some(t) => Option::Some(t),
            Option::None => self.match_kind(TokenType::Number),
        };
        if let Option::Some(t) = token {
            let value = RuntimeValue::from_token(t);
            return Result::Ok(Expression::Literal { value });
        }
        let next = self.peek();
        let mut msg = String::new();
        msg.append("Expected expression at line: ");
        crate::scanner::append_line_number_exec(&mut msg, next.line);
        msg.append(", literal: ");
        msg.append(next.lexeme.as_str());
        proof {
            assert(msg@ =~= expected_expression_chars(next.line as nat, next.lexeme@));
            assert(next.line as nat == peek_line(ts, i0));
            assert(next.lexeme@ == peek_lexeme(ts, i0));
        }
        Result::Err(msg)
    }
}


/// The kind of the token at `i`, or end-of-file past the stream.
pub open spec fn tkind(ts: Seq<Token>, i: int) -> TokenType {
    if 0 <= i < ts.len() {
        ts[i].token_type
    } else {
        TokenType::Eof
    }
}

/// Whether position `i` is at the end of the stream.
pub open spec fn p_end(ts: Seq<Token>, i: int) -> bool {
    i >= ts.len() || tkind(ts, i) == TokenType::Eof
}

/// The next parse position: `j` when it advances past `base` and stays
/// inside the stream, else one step forward, clamped to the end.
pub open spec fn step_to(ts: Seq<Token>, base: int, j: int) -> int {
    if base < j <= ts.len() {
        j
    } else if base + 1 <= ts.len() {
        base + 1
    } else {
        ts.len() as int
    }
}

/// The work remaining at position `i`: the tokens still ahead, clamped so
/// that it is defined for every integer.
pub open spec fn prem(ts: Seq<Token>, i: int) -> int {
    if i < 0 {
        ts.len() as int + 1
    } else if i <= ts.len() {
        ts.len() - i
    } else {
        0
    }
}

/// The parse outcome of an expression production: a mirror or a message,
/// and the cursor after it.
pub open spec fn e_out(r: Result<Expression, String>) -> Result<ExprModel, Seq<char>> {
    match r {
        Result::Ok(e) => Result::Ok(expr_view(e)),
        Result::Err(m) => Result::Err(m@),
    }
}

/// The parse outcome of a statement production.
pub open spec fn s_out(r: Result<Statement, String>) -> Result<StmtModel, Seq<char>> {
    match r {
        Result::Ok(s) => Result::Ok(stmt_view(s)),
        Result::Err(m) => Result::Err(m@),
    }
}

/// The parse outcome of a statement-list production.
pub open spec fn list_out(r: Result<Vec<Statement>, String>) -> Result<Seq<StmtModel>, Seq<char>> {
    match r {
        Result::Ok(ss) => Result::Ok(stmts_view(ss@, 0)),
        Result::Err(m) => Result::Err(m@),
    }
}

/// The message for a missing expression, citing the next token.
pub open spec fn expected_expression_chars(line: nat, lexeme: Seq<char>) -> Seq<char> {
    "Expected expression at line: "@ + crate::strutil::digits_of(line) + ", literal: "@ + lexeme
}

/// The line cited when no expression is found at `i`.
pub open spec fn peek_line(ts: Seq<Token>, i: int) -> nat {
    if 0 <= i < ts.len() {
        ts[i].line as nat
    } else {
        0
    }
}

/// The lexeme cited when no expression is found at `i`.
pub open spec fn peek_lexeme(ts: Seq<Token>, i: int) -> Seq<char> {
    if 0 <= i < ts.len() {
        ts[i].lexeme@
    } else {
        Seq::<char>::empty()
    }
}

/// The message for an invalid assignment target.
pub open spec fn invalid_target_chars(equals: Token) -> Seq<char> {
    "Invalid assignment target "@ + equals.lexeme@
}

/// What parsing a primary expression yields: a literal, a variable, or a
/// parenthesized grouping.
pub open spec fn m_primary(ts: Seq<Token>, i: int) -> (Result<ExprModel, Seq<char>>, int)
    decreases prem(ts, i), 1int,
{
    if tkind(ts, i) == TokenType::False {
        (Result::Ok(ExprModel::Literal { value: VModel::Bool(false) }), i + 1)
    } else if tkind(ts, i) == TokenType::True {
        (Result::Ok(ExprModel::Literal { value: VModel::Bool(true) }), i + 1)
    } else if tkind(ts, i) == TokenType::Nil {
        (Result::Ok(ExprModel::Literal { value: VModel::Nil }), i + 1)
    } else if tkind(ts, i) == TokenType::Identifier {
        (Result::Ok(ExprModel::Variable { token: ts[i] }), i + 1)
    } else if tkind(ts, i) == TokenType::LeftParen {
        let (r1, i1) = m_expression(ts, i + 1);
        match r1 {
            Result::Err(m) => (Result::Err(m), i1),
            Result::Ok(inner) => {
                let i2 = step_to(ts, i, i1);
                if tkind(ts, i2) == TokenType::RightParen {
                    (Result::Ok(ExprModel::Grouping { group: Box::new(inner) }), i2 + 1)
                } else {
                    (Result::Err("Expected )"@), i2)
                }
            },
        }
    } else if tkind(ts, i) == TokenType::String || tkind(ts, i) == TokenType::Number {
        (
            Result::Ok(
                ExprModel::Literal {
                    value: crate::expression_literal_value::vview(
                        RuntimeValue::from_token_spec(ts[i]),
                    ),
                },
            ),
            i + 1,
        )
    } else {
        (Result::Err(expected_expression_chars(peek_line(ts, i), peek_lexeme(ts, i))), i)
    }
}

/// What parsing a call's comma-separated arguments yields.
pub open spec fn m_args(ts: Seq<Token>, i: int) -> (Result<Seq<ExprModel>, Seq<char>>, int)
    decreases prem(ts, i), 25int,
{
    let (r1, i1) = m_expression(ts, i);
    match r1 {
        Result::Err(m) => (Result::Err(m), i1),
        Result::Ok(a) => {
            let i2 = step_to(ts, i, i1);
            if tkind(ts, i2) == TokenType::Comma {
                let (rest, i3) = m_args(ts, step_to(ts, i2, i2 + 1));
                match rest {
                    Result::Err(m) => (Result::Err(m), i3),
                    Result::Ok(more) => (Result::Ok(seq![a] + more), i3),
                }
            } else {
                (Result::Ok(seq![a]), i2)
            }
        },
    }
}

/// What parsing the trailing argument lists of a call chain yields.
pub open spec fn m_call_rest(ts: Seq<Token>, callee: ExprModel, i: int) -> (Result<
    ExprModel,
    Seq<char>,
>, int)
    decreases prem(ts, i), 2int,
{
    if tkind(ts, i) == TokenType::LeftParen {
        let (ra, ia) = if tkind(ts, i + 1) == TokenType::RightParen {
            (Result::<Seq<ExprModel>, Seq<char>>::Ok(Seq::empty()), i + 1)
        } else {
            m_args(ts, i + 1)
        };
        match ra {
            Result::Err(m) => (Result::Err(m), ia),
            Result::Ok(args) => {
                let ic = step_to(ts, i, ia);
                if tkind(ts, ic) == TokenType::RightParen {
                    let call = ExprModel::Call {
                        callee: Box::new(callee),
                        arguments: args,
                        line: ts[ic].line as nat,
                    };
                    m_call_rest(ts, call, step_to(ts, i, ic + 1))
                } else {
                    (Result::Err("Expected ')' after arguments"@), ic)
                }
            },
        }
    } else {
        (Result::Ok(callee), i)
    }
}

/// What parsing a call chain yields.
pub open spec fn m_call_expr(ts: Seq<Token>, i: int) -> (Result<ExprModel, Seq<char>>, int)
    decreases prem(ts, i), 3int,
{
    let (r1, i1) = m_primary(ts, i);
    match r1 {
        Result::Err(m) => (Result::Err(m), i1),
        Result::Ok(e) => m_call_rest(ts, e, step_to(ts, i, i1)),
    }
}

/// What parsing a unary negation chain yields.
pub open spec fn m_unary(ts: Seq<Token>, i: int) -> (Result<ExprModel, Seq<char>>, int)
    decreases prem(ts, i), 4int,
{
    if tkind(ts, i) == TokenType::Bang || tkind(ts, i) == TokenType::Minus {
        let (r1, i1) = m_unary(ts, i + 1);
        match r1 {
            Result::Err(m) => (Result::Err(m), i1),
            Result::Ok(e) => (
                Result::Ok(ExprModel::Unary { operator: ts[i], right: Box::new(e) }),
                i1,
            ),
        }
    } else {
        m_call_expr(ts, i)
    }
}

/// Whether `op` continues the given binary-chain production.
pub open spec fn chain_op(level: int, k: TokenType) -> bool {
    if level == 5 {
        k == TokenType::Slash || k == TokenType::Star
    } else if level == 6 {
        k == TokenType::Minus || k == TokenType::Plus
    } else if level == 7 {
        k == TokenType::Greater || k == TokenType::GreaterEqual || k == TokenType::Less || k
            == TokenType::LessEqual
    } else if level == 8 {
        k == TokenType::BangEqual || k == TokenType::EqualEqual
    } else if level == 9 {
        k == TokenType::And
    } else {
        k == TokenType::Or
    }
}

/// What parsing one operand of the chain at `level` yields: the
/// next-tighter production.
pub open spec fn m_operand(ts: Seq<Token>, level: int, i: int) -> (Result<ExprModel, Seq<char>>, int)
    decreases prem(ts, i), 2 * (if level < 5 {
        5int
    } else {
        level
    }),
{
    if level <= 5 {
        m_unary(ts, i)
    } else {
        m_chain(ts, level - 1, i)
    }
}

/// What parsing a left-associative binary chain at `level` yields:
/// factors, terms, comparisons, equalities, conjunctions and disjunctions
/// are all this shape.
pub open spec fn m_chain(ts: Seq<Token>, level: int, i: int) -> (Result<ExprModel, Seq<char>>, int)
    decreases prem(ts, i), 2 * (if level < 5 {
        5int
    } else {
        level
    }) + 1,
{
    let (r1, i1) = m_operand(ts, level, i);
    match r1 {
        Result::Err(m) => (Result::Err(m), i1),
        Result::Ok(e) => m_chain_rest(ts, level, e, step_to(ts, i, i1)),
    }
}

/// What folding further operators and operands onto `left` yields.
pub open spec fn m_chain_rest(ts: Seq<Token>, level: int, left: ExprModel, i: int) -> (Result<
    ExprModel,
    Seq<char>,
>, int)
    decreases prem(ts, i), 0int,
{
    if chain_op(level, tkind(ts, i)) {
        let (r1, i1) = m_operand(ts, level, step_to(ts, i, i + 1));
        match r1 {
            Result::Err(m) => (Result::Err(m), i1),
            Result::Ok(right) => {
                let folded = if level == 9 || level == 10 {
                    ExprModel::Logical {
                        operator: ts[i],
                        left: Box::new(left),
                        right: Box::new(right),
                    }
                } else {
                    ExprModel::Binary {
                        operator: ts[i],
                        left: Box::new(left),
                        right: Box::new(right),
                    }
                };
                m_chain_rest(ts, level, folded, step_to(ts, i, i1))
            },
        }
    } else {
        (Result::Ok(left), i)
    }
}

/// What parsing an assignment (or anything tighter) yields.
pub open spec fn m_assignment(ts: Seq<Token>, i: int) -> (Result<ExprModel, Seq<char>>, int)
    decreases prem(ts, i), 23int,
{
    let (r1, i1) = m_chain(ts, 10, i);
    match r1 {
        Result::Err(m) => (Result::Err(m), i1),
        Result::Ok(l) => {
            let ie = step_to(ts, i, i1);
            if tkind(ts, ie) == TokenType::Equal {
                let (r2, i2) = m_assignment(ts, step_to(ts, ie, ie + 1));
                match r2 {
                    Result::Err(m) => (Result::Err(m), i2),
                    Result::Ok(v) => match l {
                        ExprModel::Variable { token } => (
                            Result::Ok(
                                ExprModel::Assign { name: token.lexeme@, value: Box::new(v) },
                            ),
                            i2,
                        ),
                        _ => (Result::Err(invalid_target_chars(ts[ie])), i2),
                    },
                }
            } else {
                (Result::Ok(l), ie)
            }
        },
    }
}

/// What parsing an expression yields.
pub open spec fn m_expression(ts: Seq<Token>, i: int) -> (Result<ExprModel, Seq<char>>, int)
    decreases prem(ts, i), 24int,
{
    m_assignment(ts, i)
}

/// What parsing an expression statement yields.
pub open spec fn m_expr_stmt(ts: Seq<Token>, i: int) -> (Result<StmtModel, Seq<char>>, int)
    decreases prem(ts, i), 26int,
{
    let (r1, i1) = m_expression(ts, i);
    match r1 {
        Result::Err(m) => (Result::Err(m), i1),
        Result::Ok(e) => {
            let i2 = step_to(ts, i, i1);
            if tkind(ts, i2) == TokenType::Semicolon {
                (Result::Ok(StmtModel::Expression { expression: e }), i2 + 1)
            } else {
                (Result::Err("Expected ';' after the value."@), i2)
            }
        },
    }
}

/// What parsing a print statement, after its keyword, yields.
pub open spec fn m_print(ts: Seq<Token>, i: int) -> (Result<StmtModel, Seq<char>>, int)
    decreases prem(ts, i), 27int,
{
    let (r1, i1) = m_expression(ts, i);
    match r1 {
        Result::Err(m) => (Result::Err(m), i1),
        Result::Ok(e) => {
            let i2 = step_to(ts, i, i1);
            if tkind(ts, i2) == TokenType::Semicolon {
                (Result::Ok(StmtModel::Print { expression: e }), i2 + 1)
            } else {
                (Result::Err("Expected ';' after the value."@), i2)
            }
        },
    }
}

/// What parsing a return statement, after its keyword, yields.
pub open spec fn m_return(ts: Seq<Token>, i: int) -> (Result<StmtModel, Seq<char>>, int)
    decreases prem(ts, i), 27int,
{
    let (rv, iv) = if tkind(ts, i) != TokenType::Semicolon {
        let (r1, i1) = m_expression(ts, i);
        match r1 {
            Result::Err(m) => (Result::<Option<ExprModel>, Seq<char>>::Err(m), i1),
            Result::Ok(e) => (Result::Ok(Option::Some(e)), step_to(ts, i, i1)),
        }
    } else {
        (Result::Ok(Option::<ExprModel>::None), i)
    };
    match rv {
        Result::Err(m) => (Result::Err(m), iv),
        Result::Ok(value) => {
            if tkind(ts, iv) == TokenType::Semicolon {
                (Result::Ok(StmtModel::Return { value }), iv + 1)
            } else {
                (Result::Err("Expected ';' after return value"@), iv)
            }
        },
    }
}

/// What parsing a while statement, after its keyword, yields.
pub open spec fn m_while(ts: Seq<Token>, i: int) -> (Result<StmtModel, Seq<char>>, int)
    decreases prem(ts, i), 27int,
{
    if tkind(ts, i) != TokenType::LeftParen {
        (Result::Err("Expected '(' after 'while"@), i)
    } else {
        let (rc, ic) = m_expression(ts, i + 1);
        match rc {
            Result::Err(m) => (Result::Err(m), ic),
            Result::Ok(condition) => {
                let i2 = step_to(ts, i, ic);
                if tkind(ts, i2) != TokenType::RightParen {
                    (Result::Err("Expected ')' after while condition"@), i2)
                } else {
                    let (rb, ib) = m_statement(ts, step_to(ts, i, i2 + 1));
                    match rb {
                        Result::Err(m) => (Result::Err(m), ib),
                        Result::Ok(body) => (
                            Result::Ok(StmtModel::While { condition, body: Box::new(body) }),
                            ib,
                        ),
                    }
                }
            },
        }
    }
}

/// What parsing an if statement, after its keyword, yields.
pub open spec fn m_if(ts: Seq<Token>, i: int) -> (Result<StmtModel, Seq<char>>, int)
    decreases prem(ts, i), 27int,
{
    if tkind(ts, i) != TokenType::LeftParen {
        (Result::Err("Expected '(' after 'if'"@), i)
    } else {
        let (rc, ic) = m_expression(ts, i + 1);
        match rc {
            Result::Err(m) => (Result::Err(m), ic),
            Result::Ok(condition) => {
                let i2 = step_to(ts, i, ic);
                if tkind(ts, i2) != TokenType::RightParen {
                    (Result::Err("Expected ')' after if condition"@), i2)
                } else {
                    let (rt, it) = m_statement(ts, step_to(ts, i, i2 + 1));
                    match rt {
                        Result::Err(m) => (Result::Err(m), it),
                        Result::Ok(then_branch) => {
                            let ie = step_to(ts, i, it);
                            if tkind(ts, ie) == TokenType::Else {
                                let (re, iel) = m_statement(ts, step_to(ts, i, ie + 1));
                                match re {
                                    Result::Err(m) => (Result::Err(m), iel),
                                    Result::Ok(else_stmt) => (
                                        Result::Ok(
                                            StmtModel::If {
                                                condition,
                                                then_branch: Box::new(then_branch),
                                                else_branch: Option::Some(Box::new(else_stmt)),
                                            },
                                        ),
                                        iel,
                                    ),
                                }
                            } else {
                                (
                                    Result::Ok(
                                        StmtModel::If {
                                            condition,
                                            then_branch: Box::new(then_branch),
                                            else_branch: Option::None,
                                        },
                                    ),
                                    it,
                                )
                            }
                        },
                    }
                }
            },
        }
    }
}

/// What parsing a for statement, after its keyword, yields: pure sugar
/// for a while loop, per the grammar.
pub open spec fn m_for(ts: Seq<Token>, i: int) -> (Result<StmtModel, Seq<char>>, int)
    decreases prem(ts, i), 27int,
{
    if tkind(ts, i) != TokenType::LeftParen {
        (Result::Err("Expected '(' after 'for"@), i)
    } else {
        let (ri, ii) = if tkind(ts, i + 1) == TokenType::Semicolon {
            (Result::<Option<StmtModel>, Seq<char>>::Ok(Option::None), i + 2)
        } else if tkind(ts, i + 1) == TokenType::Var {
            let (r1, i1) = m_var_decl(ts, step_to(ts, i + 1, i + 2));
            match r1 {
                Result::Err(m) => (Result::Err(m), i1),
                Result::Ok(s) => (Result::Ok(Option::Some(s)), i1),
            }
        } else {
            let (r1, i1) = m_expr_stmt(ts, step_to(ts, i, i + 1));
            match r1 {
                Result::Err(m) => (Result::Err(m), i1),
                Result::Ok(s) => (Result::Ok(Option::Some(s)), i1),
            }
        };
        match ri {
            Result::Err(m) => (Result::Err(m), ii),
            Result::Ok(initializer) => {
                let ic0 = step_to(ts, i, ii);
                let (rc, icond) = if tkind(ts, ic0) != TokenType::Semicolon {
                    m_expression(ts, ic0)
                } else {
                    (
                        Result::<ExprModel, Seq<char>>::Ok(
                            ExprModel::Literal { value: VModel::Bool(true) },
                        ),
                        ic0,
                    )
                };
                match rc {
                    Result::Err(m) => (Result::Err(m), icond),
                    Result::Ok(condition) => {
                        let is = step_to(ts, i, icond);
                        if tkind(ts, is) != TokenType::Semicolon {
                            (Result::Err("Expect ';' after loop condition"@), is)
                        } else {
                            let ig = step_to(ts, i, is + 1);
                            let (rg, iinc) = if tkind(ts, ig) != TokenType::RightParen {
                                let (r1, i1) = m_expression(ts, ig);
                                match r1 {
                                    Result::Err(m) => (
                                        Result::<Option<ExprModel>, Seq<char>>::Err(m),
                                        i1,
                                    ),
                                    Result::Ok(e) => (Result::Ok(Option::Some(e)), i1),
                                }
                            } else {
                                (Result::Ok(Option::<ExprModel>::None), ig)
                            };
                            match rg {
                                Result::Err(m) => (Result::Err(m), iinc),
                                Result::Ok(increment) => {
                                    let ip = step_to(ts, i, iinc);
                                    if tkind(ts, ip) != TokenType::RightParen {
                                        (Result::Err("Expect ')' after for clauses"@), ip)
                                    } else {
                                        let (rb, ib) = m_statement(ts, step_to(ts, i, ip + 1));
                                        match rb {
                                            Result::Err(m) => (Result::Err(m), ib),
                                            Result::Ok(body0) => (
                                                Result::Ok(
                                                    m_for_desugar(
                                                        initializer,
                                                        condition,
                                                        increment,
                                                        body0,
                                                    ),
                                                ),
                                                ib,
                                            ),
                                        }
                                    }
                                },
                            }
                        }
                    },
                }
            },
        }
    }
}

/// The desugaring of a for statement: the body with the step appended,
/// inside a while loop, inside a block with the initializer.
pub open spec fn m_for_desugar(
    initializer: Option<StmtModel>,
    condition: ExprModel,
    increment: Option<ExprModel>,
    body0: StmtModel,
) -> StmtModel {
    let body1 = match increment {
        Option::Some(inc) => StmtModel::Block {
            statements: seq![body0, StmtModel::Expression { expression: inc }],
        },
        Option::None => body0,
    };
    let looped = StmtModel::While { condition, body: Box::new(body1) };
    match initializer {
        Option::Some(init) => StmtModel::Block { statements: seq![init, looped] },
        Option::None => looped,
    }
}

/// What parsing a variable declaration, after its keyword, yields.
pub open spec fn m_var_decl(ts: Seq<Token>, i: int) -> (Result<StmtModel, Seq<char>>, int)
    decreases prem(ts, i), 28int,
{
    if tkind(ts, i) != TokenType::Identifier {
        (Result::Err("Expect variable name"@), i)
    } else {
        let name = ts[i];
        let (ri, ii) = if tkind(ts, i + 1) == TokenType::Equal {
            m_expression(ts, step_to(ts, i + 1, i + 2))
        } else {
            (Result::<ExprModel, Seq<char>>::Ok(ExprModel::Literal { value: VModel::Nil }), i + 1)
        };
        match ri {
            Result::Err(m) => (Result::Err(m), ii),
            Result::Ok(initializer) => {
                let i2 = step_to(ts, i, ii);
                if tkind(ts, i2) == TokenType::Semicolon {
                    (Result::Ok(StmtModel::Variable { token: name, initializer }), i2 + 1)
                } else {
                    (Result::Err("Expected ';' after a variable declaration"@), i2)
                }
            },
        }
    }
}

/// What parsing a function's parameter list yields.
pub open spec fn m_params(ts: Seq<Token>, i: int) -> (Result<Seq<Token>, Seq<char>>, int)
    decreases prem(ts, i), 28int,
{
    if tkind(ts, i) != TokenType::Identifier {
        (Result::Err("Expect parameter name"@), i)
    } else {
        let p = ts[i];
        if tkind(ts, i + 1) == TokenType::Comma {
            let (rest, i2) = m_params(ts, step_to(ts, i, i + 2));
            match rest {
                Result::Err(m) => (Result::Err(m), i2),
                Result::Ok(more) => (Result::Ok(seq![p] + more), i2),
            }
        } else {
            (Result::Ok(seq![p]), i + 1)
        }
    }
}

/// What parsing a function declaration, after its keyword, yields.
pub open spec fn m_fun_decl(ts: Seq<Token>, i: int) -> (Result<StmtModel, Seq<char>>, int)
    decreases prem(ts, i), 28int,
{
    if tkind(ts, i) != TokenType::Identifier {
        (Result::Err("Expect function name"@), i)
    } else {
        let name = ts[i];
        if tkind(ts, i + 1) != TokenType::LeftParen {
            (Result::Err("Expected '(' after function name"@), i + 1)
        } else {
            let (rp, ipar) = if tkind(ts, i + 2) != TokenType::RightParen {
                m_params(ts, step_to(ts, i, i + 2))
            } else {
                (Result::<Seq<Token>, Seq<char>>::Ok(Seq::empty()), i + 2)
            };
            match rp {
                Result::Err(m) => (Result::Err(m), ipar),
                Result::Ok(parameters) => {
                    let ir = step_to(ts, i, ipar);
                    if tkind(ts, ir) != TokenType::RightParen {
                        (Result::Err("Expected ')' after parameters"@), ir)
                    } else if tkind(ts, ir + 1) != TokenType::LeftBrace {
                        (Result::Err("Expected '{' before function body"@), ir + 1)
                    } else {
                        let (rb, ib) = m_block_list(ts, step_to(ts, i, ir + 2));
                        match rb {
                            Result::Err(m) => (Result::Err(m), ib),
                            Result::Ok(body) => (
                                Result::Ok(StmtModel::Function { name, parameters, body }),
                                ib,
                            ),
                        }
                    }
                },
            }
        }
    }
}

/// What parsing one statement yields.
pub open spec fn m_statement(ts: Seq<Token>, i: int) -> (Result<StmtModel, Seq<char>>, int)
    decreases prem(ts, i), 29int,
{
    if tkind(ts, i) == TokenType::LeftBrace {
        let (r1, i1) = m_block_list(ts, i + 1);
        match r1 {
            Result::Err(m) => (Result::Err(m), i1),
            Result::Ok(statements) => (Result::Ok(StmtModel::Block { statements }), i1),
        }
    } else if tkind(ts, i) == TokenType::While {
        m_while(ts, i + 1)
    } else if tkind(ts, i) == TokenType::For {
        m_for(ts, i + 1)
    } else if tkind(ts, i) == TokenType::If {
        m_if(ts, i + 1)
    } else if tkind(ts, i) == TokenType::Print {
        m_print(ts, i + 1)
    } else if tkind(ts, i) == TokenType::Return {
        m_return(ts, i + 1)
    } else {
        m_expr_stmt(ts, i)
    }
}

/// What parsing the declarations of a block, after its opening brace,
/// yields.
pub open spec fn m_block_list(ts: Seq<Token>, i: int) -> (Result<Seq<StmtModel>, Seq<char>>, int)
    decreases prem(ts, i), 31int,
{
    if tkind(ts, i) == TokenType::RightBrace {
        (Result::Ok(Seq::empty()), i + 1)
    } else if p_end(ts, i) {
        (Result::Err("Expect '}' after block"@), i)
    } else {
        let (r1, i1) = m_declaration(ts, i);
        match r1 {
            Result::Err(m) => (Result::Err(m), i1),
            Result::Ok(s) => {
                let (rest, i2) = m_block_list(ts, step_to(ts, i, i1));
                match rest {
                    Result::Err(m) => (Result::Err(m), i2),
                    Result::Ok(more) => (Result::Ok(seq![s] + more), i2),
                }
            },
        }
    }
}

/// What parsing one declaration yields; an error inside a variable or
/// function declaration synchronizes before it returns.
pub open spec fn m_declaration(ts: Seq<Token>, i: int) -> (Result<StmtModel, Seq<char>>, int)
    decreases prem(ts, i), 30int,
{
    if tkind(ts, i) == TokenType::Var {
        let (r1, i1) = m_var_decl(ts, i + 1);
        match r1 {
            Result::Err(m) => (Result::Err(m), m_sync(ts, i1)),
            Result::Ok(s) => (Result::Ok(s), i1),
        }
    } else if tkind(ts, i) == TokenType::Fun {
        let (r1, i1) = m_fun_decl(ts, i + 1);
        match r1 {
            Result::Err(m) => (Result::Err(m), m_sync(ts, i1)),
            Result::Ok(s) => (Result::Ok(s), i1),
        }
    } else {
        m_statement(ts, i)
    }
}

/// Where synchronization lands from position `i`: one step, then forward
/// to just after a semicolon or just before a statement keyword.
pub open spec fn m_sync(ts: Seq<Token>, i: int) -> int {
    if p_end(ts, i) || !(0 <= i <= ts.len()) {
        i
    } else {
        m_sync_loop(ts, i + 1)
    }
}

/// The forward search of synchronization.
pub open spec fn m_sync_loop(ts: Seq<Token>, j: int) -> int
    decreases ts.len() - j,
{
    if p_end(ts, j) || !(0 <= j <= ts.len()) {
        j
    } else if tkind(ts, j - 1) == TokenType::Semicolon {
        j
    } else if tkind(ts, j) == TokenType::Class || tkind(ts, j) == TokenType::Fun || tkind(ts, j)
        == TokenType::Var || tkind(ts, j) == TokenType::For || tkind(ts, j) == TokenType::If
        || tkind(ts, j) == TokenType::While || tkind(ts, j) == TokenType::Print || tkind(ts, j)
        == TokenType::Return {
        j
    } else {
        m_sync_loop(ts, j + 1)
    }
}

/// What parsing a whole program yields: the statements of the successful
/// declarations, the error messages of the failing ones, in source order.
pub open spec fn m_program(ts: Seq<Token>, i: int) -> (Seq<StmtModel>, Seq<Seq<char>>)
    decreases prem(ts, i), 31int,
{
    if p_end(ts, i) || !(0 <= i <= ts.len()) {
        (Seq::empty(), Seq::empty())
    } else {
        let (r1, i1) = m_declaration(ts, i);
        match r1 {
            Result::Ok(s) => {
                let (ss, es) = m_program(ts, step_to(ts, i, i1));
                (seq![s] + ss, es)
            },
            Result::Err(m) => {
                let i2 = if i1 == i {
                    m_sync(ts, i1)
                } else {
                    i1
                };
                let (ss, es) = m_program(ts, step_to(ts, i, i2));
                (ss, seq![m] + es)
            },
        }
    }
}

} // verus!
