use vstd::prelude::*;
use crate::ast::Ast;
use crate::error::LangError;
use crate::syntax::{
    token_at,
    additive, additive_rest, args, args_list, args_rest, assignment, call, declaration, expression, member,
    member_call, member_rest, multiplicative, multiplicative_rest, object, object_rest, operator_at, primary,
    program, program_rest, statement, Syntax,
};
use crate::token::{kind_of, Token, TokenKind};

verus! {

/// A cursor over a token sequence.
pub struct Parser {
    tokens: Vec<Token>,
    pos: usize,
}

/// A node that may stand as the value of an expression statement or operand:
/// never a whole program, a declaration or a bare property.
pub open spec fn is_expression(a: Ast) -> bool {
    !(a is Program) && !(a is VariableDeclaration) && !(a is PropertyLiteral)
}

/// A node that may stand as a statement.
pub open spec fn is_statement(a: Ast) -> bool {
    !(a is Program) && !(a is PropertyLiteral)
}

/// An error that the parser reports.
pub open spec fn is_syntax_error(e: LangError) -> bool {
    e is UnexpectedToken || e is ConstantWithoutValue || e is ExpectedIdentifierAfterDot
}

/// What every parsing step promises: it only moves forward, consumes at least
/// one token when it succeeds, and fails only with a syntax error.
pub open spec fn step_ok(before: Parser, after: Parser, r: Result<Ast, LangError>) -> bool {
    &&& before.moved_to(&after)
    &&& r is Ok ==> after.pos() > before.pos()
    &&& r matches Ok(a) ==> is_expression(a)
    &&& r matches Err(e) ==> is_syntax_error(e)
}

/// The executable result `r`, ending at `q`, is what the grammar rule read.
pub open spec fn agrees(rule: Result<(Syntax, int), LangError>, r: Result<Ast, LangError>, q: int) -> bool {
    match r {
        Ok(a) => rule == Ok::<(Syntax, int), LangError>((a.model(), q)),
        Err(e) => rule == Err::<(Syntax, int), LangError>(e),
    }
}

pub open spec fn agrees_list(rule: Result<(Seq<Syntax>, int), LangError>, r: Result<Vec<Ast>, LangError>, q: int) -> bool {
    match r {
        Ok(a) => rule == Ok::<(Seq<Syntax>, int), LangError>((crate::syntax::model_list(a@), q)),
        Err(e) => rule == Err::<(Seq<Syntax>, int), LangError>(e),
    }
}

impl Parser {
    pub closed spec fn tokens(&self) -> Seq<Token> {
        self.tokens@
    }

    pub closed spec fn pos(&self) -> nat {
        self.pos as nat
    }

    pub closed spec fn valid(&self) -> bool {
        self.pos <= self.tokens@.len()
    }

    /// The tokens not yet consumed.
    pub open spec fn remaining(&self) -> nat {
        (self.tokens().len() - self.pos()) as nat
    }

    /// `after` is this parser moved forward over the same tokens.
    pub open spec fn moved_to(&self, after: &Parser) -> bool {
        &&& after.valid()
        &&& after.tokens() == self.tokens()
        &&& self.pos() <= after.pos()
    }

    pub fn new(tokens: Vec<Token>) -> (r: Parser)
        ensures
            r.valid(),
            r.tokens() == tokens@,
            r.pos() == 0,
    {
        Parser { tokens, pos: 0 }
    }

    /// The next token, if any is left.
    fn at(&self) -> (r: Option<&Token>)
        requires
            self.valid(),
        ensures
            self.pos() < self.tokens().len() ==> r == Some(&self.tokens()[self.pos() as int]),
            self.pos() >= self.tokens().len() ==> r is None,
    {
        if self.pos < self.tokens.len() {
            Some(&self.tokens[self.pos])
        } else {
            None
        }
    }

    /// Whether the next token has kind `k`.
    fn at_kind(&self, k: TokenKind) -> (r: bool)
        requires
            self.valid(),
        ensures
            r == (self.pos() < self.tokens().len() && kind_of(self.tokens()[self.pos() as int]) == k),
    {
        match self.at() {
            Some(t) => t.kind() == k,
            None => false,
        }
    }

    /// Whether input is left before the end marker.
    fn not_eof(&self) -> (r: bool)
        requires
            self.valid(),
        ensures
            r == !(self.pos() < self.tokens().len() && self.tokens()[self.pos() as int] is Eof),
    {
        !self.at_kind(TokenKind::Eof)
    }

    /// Steps over the next token.
    fn eat(&mut self)
        requires
            old(self).valid(),
            old(self).pos() < old(self).tokens().len(),
        ensures
            final(self).valid(),
            final(self).tokens() == old(self).tokens(),
            final(self).pos() == old(self).pos() + 1,
    {
        let n = self.tokens.len();
        assert(self.pos < n);
        self.pos = self.pos + 1;
    }

    /// Steps over the next token, which must have kind `k`.
    fn expect(&mut self, k: TokenKind) -> (r: Result<Token, LangError>)
        requires
            old(self).valid(),
        ensures
            old(self).moved_to(final(self)),
            r is Ok <==> (old(self).pos() < old(self).tokens().len() && kind_of(old(self).tokens()[old(self).pos() as int]) == k),
            r is Ok ==> final(self).pos() == old(self).pos() + 1,
            r matches Err(e) ==> e == LangError::UnexpectedToken(token_at(old(self).tokens(), old(self).pos() as int)),
            r matches Ok(t) ==> t == old(self).tokens()[old(self).pos() as int],
    {
        if self.at_kind(k) {
            let t = self.tokens[self.pos].duplicate();
            self.eat();
            Ok(t)
        } else {
            Err(self.unexpected_here())
        }
    }

    /// The error for the token at the cursor, or for the end of input.
    fn unexpected_here(&self) -> (r: LangError)
        requires
            self.valid(),
        ensures
            r == LangError::UnexpectedToken(token_at(self.tokens(), self.pos() as int)),
    {
        match self.at() {
            Some(t) => LangError::UnexpectedToken(Some(t.duplicate())),
            None => LangError::UnexpectedToken(None),
        }
    }

    /// `( expression )`, a number or an identifier.
    fn parse_primary_expression(&mut self) -> (r: Result<Ast, LangError>)
        requires
            old(self).valid(),
        ensures
            step_ok(*old(self), *final(self), r),
            old(self).pos() >= old(self).tokens().len() ==> r == Err::<Ast, LangError>(LangError::UnexpectedToken(None)),
            old(self).pos() < old(self).tokens().len() ==> match old(self).tokens()[old(self).pos() as int] {
                Token::Number(n) => r == Ok::<Ast, LangError>(Ast::NumericLiteral(n)) && final(self).pos() == old(self).pos() + 1,
                Token::Identifier(s) => r == Ok::<Ast, LangError>(Ast::Identifier(s)) && final(self).pos() == old(self).pos() + 1,
                Token::OpenParen => true,
                _ => r == Err::<Ast, LangError>(
                    LangError::UnexpectedToken(token_at(old(self).tokens(), old(self).pos() as int)),
                ),
            },
            agrees(primary(old(self).tokens(), old(self).pos() as int), r, final(self).pos() as int),
        decreases old(self).remaining(), 2nat,
    {
        match self.at() {
            Some(Token::OpenParen) => {
                self.eat();
                let expression = self.parse_expression()?;
                self.expect(TokenKind::CloseParen)?;
                Ok(expression)
            },
            Some(Token::Number(n)) => {
                let n = *n;
                self.eat();
                Ok(Ast::NumericLiteral(n))
            },
            Some(Token::Identifier(id)) => {
                let name = id.clone();
                self.eat();
                Ok(Ast::Identifier(name))
            },
            _ => Err(self.unexpected_here()),
        }
    }

    /// A primary followed by any chain of `.name` and `[expression]`.
    fn parse_member_expression(&mut self) -> (r: Result<Ast, LangError>)
        requires
            old(self).valid(),
        ensures
            step_ok(*old(self), *final(self), r),
            agrees(member(old(self).tokens(), old(self).pos() as int), r, final(self).pos() as int),
        decreases old(self).remaining(), 3nat,
    {
        let ghost start = *self;
        let mut object = self.parse_primary_expression()?;
        while self.at_kind(TokenKind::Dot) || self.at_kind(TokenKind::OpenBracket)
            invariant
                start == *old(self),
                start.moved_to(self),
                self.pos() > start.pos(),
                is_expression(object),
                member(start.tokens(), start.pos() as int) == member_rest(self.tokens(), self.pos() as int, object.model()),
            decreases self.remaining(),
        {
            if self.at_kind(TokenKind::Dot) {
                self.eat();
                let property = self.parse_primary_expression()?;
                match property {
                    Ast::Identifier(_) => {},
                    _ => {
                        return Err(LangError::ExpectedIdentifierAfterDot);
                    },
                }
                object = Ast::MemberExpr { object: Box::new(object), property: Box::new(property), computed: false };
            } else {
                self.eat();
                let property = self.parse_expression()?;
                self.expect(TokenKind::CloseBracket)?;
                object = Ast::MemberExpr { object: Box::new(object), property: Box::new(property), computed: true };
            }
        }
        Ok(object)
    }

    /// The arguments after a callee, and any further argument lists.
    fn parse_call_expression(&mut self, caller: Ast) -> (r: Result<Ast, LangError>)
        requires
            old(self).valid(),
        ensures
            step_ok(*old(self), *final(self), r),
            agrees(call(old(self).tokens(), old(self).pos() as int, caller.model()), r, final(self).pos() as int),
        decreases old(self).remaining(), 2nat,
    {
        let args = self.parse_args()?;
        let call = Ast::CallExpr { caller: Box::new(caller), args };
        if self.at_kind(TokenKind::OpenParen) {
            return self.parse_call_expression(call);
        }
        Ok(call)
    }

    /// `( )` or `( a, b, ... )`.
    fn parse_args(&mut self) -> (r: Result<Vec<Ast>, LangError>)
        requires
            old(self).valid(),
        ensures
            old(self).moved_to(final(self)),
            r is Ok ==> final(self).pos() > old(self).pos(),
            r matches Err(e) ==> is_syntax_error(e),
            agrees_list(args(old(self).tokens(), old(self).pos() as int), r, final(self).pos() as int),
        decreases old(self).remaining(), 1nat,
    {
        self.expect(TokenKind::OpenParen)?;
        let mut args: Vec<Ast> = Vec::new();
        if !self.at_kind(TokenKind::CloseParen) {
            args = self.parse_args_list()?;
        }
        self.expect(TokenKind::CloseParen)?;
        Ok(args)
    }

    /// One or more assignment expressions separated by commas.
    fn parse_args_list(&mut self) -> (r: Result<Vec<Ast>, LangError>)
        requires
            old(self).valid(),
        ensures
            old(self).moved_to(final(self)),
            r is Ok ==> final(self).pos() > old(self).pos(),
            r matches Err(e) ==> is_syntax_error(e),
            agrees_list(args_list(old(self).tokens(), old(self).pos() as int), r, final(self).pos() as int),
        decreases old(self).remaining(), 9nat,
    {
        let ghost start = *self;
        let mut args: Vec<Ast> = Vec::new();
        let first = self.parse_assignment_expression()?;
        let ghost first_model = first.model();
        args.push(first);
        proof {
            crate::syntax::lemma_model_list_push(Seq::empty(), args@[0]);
            assert(args@ =~= Seq::<Ast>::empty().push(args@[0]));
            assert(crate::syntax::model_list(Seq::<Ast>::empty()) =~= Seq::empty());
        }
        while self.at_kind(TokenKind::Comma)
            invariant
                start == *old(self),
                start.moved_to(self),
                self.pos() > start.pos(),
                args_list(start.tokens(), start.pos() as int) == args_rest(self.tokens(), self.pos() as int, crate::syntax::model_list(args@)),
            decreases self.remaining(),
        {
            self.eat();
            let next = self.parse_assignment_expression()?;
            proof {
                crate::syntax::lemma_model_list_push(args@, next);
            }
            args.push(next);
        }
        Ok(args)
    }

    /// A member chain, called if an argument list follows.
    fn parse_member_call_expression(&mut self) -> (r: Result<Ast, LangError>)
        requires
            old(self).valid(),
        ensures
            step_ok(*old(self), *final(self), r),
            agrees(member_call(old(self).tokens(), old(self).pos() as int), r, final(self).pos() as int),
        decreases old(self).remaining(), 4nat,
    {
        let member = self.parse_member_expression()?;
        if self.at_kind(TokenKind::OpenParen) {
            return self.parse_call_expression(member);
        }
        Ok(member)
    }

    /// The next token's operator, if it is multiplicative (or, when
    /// `multiplicative` is false, additive).
    fn at_operator(&self, multiplicative: bool) -> (r: Option<char>)
        requires
            self.valid(),
        ensures
            r == operator_at(self.tokens(), self.pos() as int, multiplicative),
            r matches Some(c) ==> self.pos() < self.tokens().len()
                && self.tokens()[self.pos() as int] == Token::BinaryOperator(c)
                && (if multiplicative { c == '*' || c == '/' || c == '%' } else { c == '+' || c == '-' }),
    {
        match self.at() {
            Some(Token::BinaryOperator(c)) => {
                let c = *c;
                if multiplicative && (c == '*' || c == '/' || c == '%') {
                    Some(c)
                } else if !multiplicative && (c == '+' || c == '-') {
                    Some(c)
                } else {
                    None
                }
            },
            _ => None,
        }
    }

    /// Left-associative `*`, `/` and `%`.
    fn parse_multiplicative_expression(&mut self) -> (r: Result<Ast, LangError>)
        requires
            old(self).valid(),
        ensures
            step_ok(*old(self), *final(self), r),
            agrees(multiplicative(old(self).tokens(), old(self).pos() as int), r, final(self).pos() as int),
        decreases old(self).remaining(), 5nat,
    {
        let ghost start = *self;
        let mut left = self.parse_member_call_expression()?;
        let mut op = self.at_operator(true);
        while op.is_some()
            invariant
                start == *old(self),
                start.moved_to(self),
                self.pos() > start.pos(),
                is_expression(left),
                op matches Some(c) ==> self.pos() < self.tokens().len(),
                op == operator_at(self.tokens(), self.pos() as int, true),
                multiplicative(start.tokens(), start.pos() as int) == multiplicative_rest(self.tokens(), self.pos() as int, left.model()),
            decreases self.remaining(),
        {
            let operator = op.unwrap();
            self.eat();
            let right = self.parse_member_call_expression()?;
            left = Ast::BinaryExpr { left: Box::new(left), right: Box::new(right), operator };
            op = self.at_operator(true);
        }
        Ok(left)
    }

    /// Left-associative `+` and `-`.
    fn parse_additive_expression(&mut self) -> (r: Result<Ast, LangError>)
        requires
            old(self).valid(),
        ensures
            step_ok(*old(self), *final(self), r),
            agrees(additive(old(self).tokens(), old(self).pos() as int), r, final(self).pos() as int),
        decreases old(self).remaining(), 6nat,
    {
        let ghost start = *self;
        let mut left = self.parse_multiplicative_expression()?;
        let mut op = self.at_operator(false);
        while op.is_some()
            invariant
                start == *old(self),
                start.moved_to(self),
                self.pos() > start.pos(),
                is_expression(left),
                op matches Some(c) ==> self.pos() < self.tokens().len(),
                op == operator_at(self.tokens(), self.pos() as int, false),
                additive(start.tokens(), start.pos() as int) == additive_rest(self.tokens(), self.pos() as int, left.model()),
            decreases self.remaining(),
        {
            let operator = op.unwrap();
            self.eat();
            let right = self.parse_multiplicative_expression()?;
            left = Ast::BinaryExpr { left: Box::new(left), right: Box::new(right), operator };
            op = self.at_operator(false);
        }
        Ok(left)
    }

    /// `{ key: value, key, ... }`, or an additive expression when no `{` comes.
    fn parse_object_expression(&mut self) -> (r: Result<Ast, LangError>)
        requires
            old(self).valid(),
        ensures
            step_ok(*old(self), *final(self), r),
            agrees(object(old(self).tokens(), old(self).pos() as int), r, final(self).pos() as int),
        decreases old(self).remaining(), 7nat,
    {
        if !self.at_kind(TokenKind::OpenBrace) {
            return self.parse_additive_expression();
        }
        let ghost start = *self;
        self.eat();
        let mut properties: Vec<(String, Option<Box<Ast>>)> = Vec::new();
        proof {
            assert(crate::syntax::model_properties(properties@) =~= Seq::empty());
        }
        while self.not_eof() && !self.at_kind(TokenKind::CloseBrace)
            invariant
                start == *old(self),
                start.moved_to(self),
                self.pos() > start.pos(),
                object(start.tokens(), start.pos() as int) == object_rest(
                    self.tokens(),
                    self.pos() as int,
                    crate::syntax::model_properties(properties@),
                ),
            decreases self.remaining(),
        {
            let key = match self.at() {
                Some(Token::Identifier(id)) => id.clone(),
                _ => {
                    return Err(self.unexpected_here());
                },
            };
            self.eat();
            if self.at_kind(TokenKind::Comma) {
                self.eat();
                proof {
                    crate::syntax::lemma_model_properties_push(properties@, (key, None));
                }
                properties.push((key, None));
            } else if self.at_kind(TokenKind::CloseBrace) {
                proof {
                    crate::syntax::lemma_model_properties_push(properties@, (key, None));
                }
                properties.push((key, None));
            } else {
                self.expect(TokenKind::Colon)?;
                let value = self.parse_expression()?;
                proof {
                    crate::syntax::lemma_model_properties_push(properties@, (key, Some(Box::new(value))));
                }
                properties.push((key, Some(Box::new(value))));
                if !self.at_kind(TokenKind::CloseBrace) {
                    self.expect(TokenKind::Comma)?;
                }
            }
        }
        self.expect(TokenKind::CloseBrace)?;
        Ok(Ast::ObjectLiteral { properties })
    }

    /// `target = value;`, right-associative, or an object-or-lower expression.
    fn parse_assignment_expression(&mut self) -> (r: Result<Ast, LangError>)
        requires
            old(self).valid(),
        ensures
            step_ok(*old(self), *final(self), r),
            agrees(assignment(old(self).tokens(), old(self).pos() as int), r, final(self).pos() as int),
        decreases old(self).remaining(), 8nat,
    {
        let left = self.parse_object_expression()?;
        if self.at_kind(TokenKind::Equals) {
            self.eat();
            let value = self.parse_assignment_expression()?;
            self.expect(TokenKind::Semicolon)?;
            return Ok(Ast::AssignmentExpr { assignee: Box::new(left), value: Box::new(value) });
        }
        Ok(left)
    }

    fn parse_expression(&mut self) -> (r: Result<Ast, LangError>)
        requires
            old(self).valid(),
        ensures
            step_ok(*old(self), *final(self), r),
            agrees(expression(old(self).tokens(), old(self).pos() as int), r, final(self).pos() as int),
        decreases old(self).remaining(), 9nat,
    {
        self.parse_assignment_expression()
    }

    /// `let name;`, `let name = value;` or `const name = value;`.
    fn parse_variable_declaration(&mut self) -> (r: Result<Ast, LangError>)
        requires
            old(self).valid(),
            old(self).pos() < old(self).tokens().len(),
            old(self).tokens()[old(self).pos() as int] is Let || old(self).tokens()[old(self).pos() as int] is Const,
        ensures
            old(self).moved_to(final(self)),
            r is Ok ==> final(self).pos() > old(self).pos(),
            r matches Ok(a) ==> a matches Ast::VariableDeclaration { constant, identifier, .. }
                && constant == old(self).tokens()[old(self).pos() as int] is Const
                && old(self).pos() + 1 < old(self).tokens().len()
                && old(self).tokens()[old(self).pos() + 1int] == Token::Identifier(identifier),
            !(old(self).pos() + 1 < old(self).tokens().len() && old(self).tokens()[old(self).pos() + 1int] is Identifier)
                ==> r == Err::<Ast, LangError>(
                LangError::UnexpectedToken(token_at(old(self).tokens(), old(self).pos() + 1int)),
            ),
            old(self).pos() + 2 < old(self).tokens().len() && old(self).tokens()[old(self).pos() + 1int] is Identifier
                && old(self).tokens()[old(self).pos() + 2int] is Semicolon ==> {
                &&& old(self).tokens()[old(self).pos() as int] is Const ==> r == Err::<Ast, LangError>(LangError::ConstantWithoutValue)
                &&& old(self).tokens()[old(self).pos() as int] is Let ==> (r matches Ok(Ast::VariableDeclaration { value, .. })
                    && *value matches Ast::Identifier(n) && n@ == seq!['n', 'u', 'l', 'l'])
            },
            r matches Err(e) ==> is_syntax_error(e),
            agrees(declaration(old(self).tokens(), old(self).pos() as int), r, final(self).pos() as int),
        decreases old(self).remaining(), 10nat,
    {
        let constant = self.at_kind(TokenKind::Const);
        self.eat();
        let identifier = match self.at() {
            Some(Token::Identifier(id)) => id.clone(),
            _ => {
                return Err(self.unexpected_here());
            },
        };
        self.eat();
        if self.at_kind(TokenKind::Semicolon) {
            if constant {
                return Err(LangError::ConstantWithoutValue);
            }
            self.eat();
            let null_name = String::from_str("null");
            proof {
                reveal_strlit("null");
                assert(null_name@ =~= crate::syntax::null_name());
            }
            let result = Ast::VariableDeclaration { constant, identifier, value: Box::new(Ast::Identifier(null_name)) };
            proof {
                let toks = old(self).tokens();
                let p = old(self).pos() as int;
                assert(toks[p + 1] is Identifier);
                assert(toks[p + 1]->Identifier_0@ == identifier@);
                assert((*result->VariableDeclaration_value).model() == Syntax::Name(crate::syntax::null_name()));
                assert(result.model() == Syntax::Declaration(false, identifier@, Box::new(Syntax::Name(crate::syntax::null_name()))));
                assert(self.pos() == p + 3);
                assert(declaration(toks, p) == Ok::<(Syntax, int), LangError>((result.model(), p + 3)));
            }
            return Ok(result);
        }
        self.expect(TokenKind::Equals)?;
        let value = self.parse_expression()?;
        self.expect(TokenKind::Semicolon)?;
        Ok(Ast::VariableDeclaration { constant, identifier, value: Box::new(value) })
    }

    fn parse_statement(&mut self) -> (r: Result<Ast, LangError>)
        requires
            old(self).valid(),
        ensures
            old(self).moved_to(final(self)),
            r is Ok ==> final(self).pos() > old(self).pos(),
            r matches Ok(a) ==> is_statement(a),
            r matches Err(e) ==> is_syntax_error(e),
            agrees(statement(old(self).tokens(), old(self).pos() as int), r, final(self).pos() as int),
        decreases old(self).remaining(), 11nat,
    {
        if self.at_kind(TokenKind::Let) || self.at_kind(TokenKind::Const) {
            self.parse_variable_declaration()
        } else {
            self.parse_expression()
        }
    }

    /// Statements up to the end marker, as a program.
    pub fn parse(&mut self) -> (r: Result<Ast, LangError>)
        requires
            old(self).valid(),
        ensures
            old(self).moved_to(final(self)),
            r matches Ok(a) ==> a matches Ast::Program { statements } && forall|i: int|
                0 <= i < statements@.len() ==> is_statement(#[trigger] statements@[i]),
            r is Ok ==> final(self).pos() < final(self).tokens().len() && final(self).tokens()[final(self).pos() as int] is Eof,
            r matches Err(e) ==> is_syntax_error(e),
            match r {
                Ok(a) => program_rest(old(self).tokens(), old(self).pos() as int, Seq::empty()) == Ok::<Syntax, LangError>(a.model()),
                Err(e) => program_rest(old(self).tokens(), old(self).pos() as int, Seq::empty()) == Err::<Syntax, LangError>(e),
            },
    {
        let ghost start = *self;
        let mut statements: Vec<Ast> = Vec::new();
        proof {
            assert(crate::syntax::model_list(statements@) =~= Seq::empty());
        }
        while self.not_eof()
            invariant
                start == *old(self),
                start.moved_to(self),
                forall|i: int| 0 <= i < statements@.len() ==> is_statement(#[trigger] statements@[i]),
                program_rest(start.tokens(), start.pos() as int, Seq::empty()) == program_rest(
                    self.tokens(),
                    self.pos() as int,
                    crate::syntax::model_list(statements@),
                ),
            decreases self.remaining(),
        {
            let statement = self.parse_statement()?;
            proof {
                crate::syntax::lemma_model_list_push(statements@, statement);
            }
            statements.push(statement);
        }
        Ok(Ast::Program { statements })
    }
}

/// Parses a whole token sequence into a program.
pub fn parse(tokens: Vec<Token>) -> (r: Result<Ast, LangError>)
    ensures
        r matches Ok(a) ==> a matches Ast::Program { statements } && forall|i: int|
            0 <= i < statements@.len() ==> is_statement(#[trigger] statements@[i]),
        r is Ok ==> tokens@.contains(Token::Eof),
        r matches Err(e) ==> is_syntax_error(e),
        match r {
            Ok(a) => program(tokens@) == Ok::<Syntax, LangError>(a.model()),
            Err(e) => program(tokens@) == Err::<Syntax, LangError>(e),
        },
{
    let mut parser = Parser::new(tokens);
    parser.parse()
}

} // verus!
