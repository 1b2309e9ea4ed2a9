use vstd::prelude::*;
use crate::ast::Ast;
use crate::error::LangError;
use crate::token::{kind_of, Token, TokenKind};

verus! {

broadcast use vstd::std_specs::vec::group_vec_axioms;

/// The mathematical form of a syntax tree: [`Ast`] with sequences for vectors
/// and character sequences for strings.
pub enum Syntax {
    Program(Seq<Syntax>),
    Declaration(bool, Seq<char>, Box<Syntax>),
    Binary(Box<Syntax>, Box<Syntax>, char),
    Assignment(Box<Syntax>, Box<Syntax>),
    Member(Box<Syntax>, Box<Syntax>, bool),
    Call(Box<Syntax>, Seq<Syntax>),
    Name(Seq<char>),
    Number(isize),
    Property(Seq<char>, Option<Box<Syntax>>),
    Object(Seq<(Seq<char>, Option<Syntax>)>),
}

impl Ast {
    pub open spec fn model(self) -> Syntax
        decreases self, 0nat,
    {
        match self {
            Ast::Program { statements } => Syntax::Program(model_list(statements@)),
            Ast::VariableDeclaration { constant, identifier, value } => Syntax::Declaration(
                constant,
                identifier@,
                Box::new(value.model()),
            ),
            Ast::BinaryExpr { left, right, operator } => Syntax::Binary(
                Box::new(left.model()),
                Box::new(right.model()),
                operator,
            ),
            Ast::AssignmentExpr { assignee, value } => Syntax::Assignment(
                Box::new(assignee.model()),
                Box::new(value.model()),
            ),
            Ast::MemberExpr { object, property, computed } => Syntax::Member(
                Box::new(object.model()),
                Box::new(property.model()),
                computed,
            ),
            Ast::CallExpr { caller, args } => Syntax::Call(Box::new(caller.model()), model_list(args@)),
            Ast::Identifier(name) => Syntax::Name(name@),
            Ast::NumericLiteral(n) => Syntax::Number(n),
            Ast::PropertyLiteral { key, value } => Syntax::Property(
                key@,
                match value {
                    Some(v) => Some(Box::new(v.model())),
                    None => None,
                },
            ),
            Ast::ObjectLiteral { properties } => Syntax::Object(model_properties(properties@)),
        }
    }
}

pub open spec fn model_list(s: Seq<Ast>) -> Seq<Syntax>
    decreases s, 1nat,
{
    if s.len() == 0 {
        Seq::empty()
    } else {
        seq![s[0].model()] + model_list(s.drop_first())
    }
}

pub open spec fn model_properties(s: Seq<(String, Option<Box<Ast>>)>) -> Seq<(Seq<char>, Option<Syntax>)>
    decreases s, 1nat,
{
    if s.len() == 0 {
        Seq::empty()
    } else {
        seq![
            (s[0].0@, match s[0].1 {
                Some(v) => Some(v.model()),
                None => None,
            }),
        ] + model_properties(s.drop_first())
    }
}

pub proof fn lemma_model_list_push(s: Seq<Ast>, a: Ast)
    ensures
        model_list(s.push(a)) == model_list(s).push(a.model()),
    decreases s.len(),
{
    if s.len() == 0 {
        assert(s.push(a).drop_first() =~= Seq::<Ast>::empty());
        assert(s.push(a)[0] == a);
        assert(model_list(Seq::<Ast>::empty()) =~= Seq::empty());
        assert(model_list(s) =~= Seq::empty());
        assert(model_list(s.push(a)) =~= seq![a.model()]);
    } else {
        lemma_model_list_push(s.drop_first(), a);
        assert(s.push(a).drop_first() =~= s.drop_first().push(a));
        assert(model_list(s.push(a)) =~= model_list(s).push(a.model()));
    }
}

pub proof fn lemma_model_properties_push(s: Seq<(String, Option<Box<Ast>>)>, p: (String, Option<Box<Ast>>))
    ensures
        model_properties(s.push(p)) == model_properties(s).push(
            (p.0@, match p.1 {
                Some(v) => Some(v.model()),
                None => None,
            }),
        ),
    decreases s.len(),
{
    if s.len() == 0 {
        assert(s.push(p).drop_first() =~= Seq::<(String, Option<Box<Ast>>)>::empty());
        assert(s.push(p)[0] == p);
        assert(model_properties(Seq::<(String, Option<Box<Ast>>)>::empty()) =~= Seq::empty());
        assert(model_properties(s) =~= Seq::empty());
        assert(model_properties(s.push(p)) =~= model_properties(s).push(
            (p.0@, match p.1 {
                Some(v) => Some(v.model()),
                None => None,
            }),
        ));
    } else {
        lemma_model_properties_push(s.drop_first(), p);
        assert(s.push(p).drop_first() =~= s.drop_first().push(p));
        assert(model_properties(s.push(p)) =~= model_properties(s).push(
            (p.0@, match p.1 {
                Some(v) => Some(v.model()),
                None => None,
            }),
        ));
    }
}

/// Whether the token at `p` has kind `k`.
pub open spec fn at_kind(toks: Seq<Token>, p: int, k: TokenKind) -> bool {
    0 <= p < toks.len() && kind_of(toks[p]) == k
}

/// Whether `p` is not at the end marker (running past the tokens counts as not).
pub open spec fn not_eof(toks: Seq<Token>, p: int) -> bool {
    !(0 <= p < toks.len() && toks[p] is Eof)
}

/// The operator at `p`, if it is one of the multiplicative (or additive) ones.
pub open spec fn operator_at(toks: Seq<Token>, p: int, multiplicative: bool) -> Option<char> {
    if 0 <= p < toks.len() {
        match toks[p] {
            Token::BinaryOperator(c) => if (multiplicative && (c == '*' || c == '/' || c == '%')) || (!multiplicative
                && (c == '+' || c == '-')) {
                Some(c)
            } else {
                None
            },
            _ => None,
        }
    } else {
        None
    }
}

/// `q` lies after `p`, within the tokens.
pub open spec fn advances(toks: Seq<Token>, p: int, q: int) -> bool {
    p < q <= toks.len()
}

/// The token at `p`, if there is one.
pub open spec fn token_at(toks: Seq<Token>, p: int) -> Option<Token> {
    if 0 <= p < toks.len() {
        Some(toks[p])
    } else {
        None
    }
}

/// The error for a token that the grammar does not allow at `p`.
pub open spec fn unexpected<T>(toks: Seq<Token>, p: int) -> Result<T, LangError> {
    Err(LangError::UnexpectedToken(token_at(toks, p)))
}

/// The grammar, as what each rule reads from position `p`: the tree and the
/// position after it, or the error that stops it.
pub open spec fn primary(toks: Seq<Token>, p: int) -> Result<(Syntax, int), LangError>
    decreases (toks.len() - p) as nat, 2nat,
{
    if 0 <= p < toks.len() {
        match toks[p] {
            Token::OpenParen => match expression(toks, p + 1) {
                Ok((e, q)) => if at_kind(toks, q, TokenKind::CloseParen) {
                    Ok((e, q + 1))
                } else {
                    unexpected(toks, q)
                },
                Err(e) => Err(e),
            },
            Token::Number(n) => Ok((Syntax::Number(n), p + 1)),
            Token::Identifier(name) => Ok((Syntax::Name(name@), p + 1)),
            _ => unexpected(toks, p),
        }
    } else {
        unexpected(toks, p)
    }
}

pub open spec fn member(toks: Seq<Token>, p: int) -> Result<(Syntax, int), LangError>
    decreases (toks.len() - p) as nat, 3nat,
{
    match primary(toks, p) {
        Ok((o, q)) => if advances(toks, p, q) {
            member_rest(toks, q, o)
        } else {
            unexpected(toks, p)
        },
        Err(e) => Err(e),
    }
}

pub open spec fn member_rest(toks: Seq<Token>, p: int, object: Syntax) -> Result<(Syntax, int), LangError>
    decreases (toks.len() - p) as nat, 3nat,
{
    if at_kind(toks, p, TokenKind::Dot) {
        match primary(toks, p + 1) {
            Ok((property, q)) => if property is Name {
                if advances(toks, p, q) {
                    member_rest(toks, q, Syntax::Member(Box::new(object), Box::new(property), false))
                } else {
                    unexpected(toks, p)
                }
            } else {
                Err(LangError::ExpectedIdentifierAfterDot)
            },
            Err(e) => Err(e),
        }
    } else if at_kind(toks, p, TokenKind::OpenBracket) {
        match expression(toks, p + 1) {
            Ok((property, q)) => if at_kind(toks, q, TokenKind::CloseBracket) && advances(toks, p, q + 1) {
                member_rest(toks, q + 1, Syntax::Member(Box::new(object), Box::new(property), true))
            } else {
                unexpected(toks, q)
            },
            Err(e) => Err(e),
        }
    } else {
        Ok((object, p))
    }
}

pub open spec fn call(toks: Seq<Token>, p: int, caller: Syntax) -> Result<(Syntax, int), LangError>
    decreases (toks.len() - p) as nat, 2nat,
{
    match args(toks, p) {
        Ok((a, q)) => {
            let c = Syntax::Call(Box::new(caller), a);
            if at_kind(toks, q, TokenKind::OpenParen) {
                if advances(toks, p, q) {
                    call(toks, q, c)
                } else {
                    unexpected(toks, q)
                }
            } else {
                Ok((c, q))
            }
        },
        Err(e) => Err(e),
    }
}

pub open spec fn args(toks: Seq<Token>, p: int) -> Result<(Seq<Syntax>, int), LangError>
    decreases (toks.len() - p) as nat, 1nat,
{
    if at_kind(toks, p, TokenKind::OpenParen) {
        if at_kind(toks, p + 1, TokenKind::CloseParen) {
            Ok((Seq::empty(), p + 2))
        } else {
            match args_list(toks, p + 1) {
                Ok((a, q)) => if at_kind(toks, q, TokenKind::CloseParen) {
                    Ok((a, q + 1))
                } else {
                    unexpected(toks, q)
                },
                Err(e) => Err(e),
            }
        }
    } else {
        unexpected(toks, p)
    }
}

pub open spec fn args_list(toks: Seq<Token>, p: int) -> Result<(Seq<Syntax>, int), LangError>
    decreases (toks.len() - p) as nat, 9nat,
{
    match assignment(toks, p) {
        Ok((a, q)) => if advances(toks, p, q) {
            args_rest(toks, q, seq![a])
        } else {
            unexpected(toks, p)
        },
        Err(e) => Err(e),
    }
}

pub open spec fn args_rest(toks: Seq<Token>, p: int, acc: Seq<Syntax>) -> Result<(Seq<Syntax>, int), LangError>
    decreases (toks.len() - p) as nat, 9nat,
{
    if at_kind(toks, p, TokenKind::Comma) {
        match assignment(toks, p + 1) {
            Ok((a, q)) => if advances(toks, p, q) {
                args_rest(toks, q, acc.push(a))
            } else {
                unexpected(toks, p)
            },
            Err(e) => Err(e),
        }
    } else {
        Ok((acc, p))
    }
}

pub open spec fn member_call(toks: Seq<Token>, p: int) -> Result<(Syntax, int), LangError>
    decreases (toks.len() - p) as nat, 4nat,
{
    match member(toks, p) {
        Ok((m, q)) => if at_kind(toks, q, TokenKind::OpenParen) {
            if advances(toks, p, q) {
                call(toks, q, m)
            } else {
                unexpected(toks, p)
            }
        } else {
            Ok((m, q))
        },
        Err(e) => Err(e),
    }
}

pub open spec fn multiplicative(toks: Seq<Token>, p: int) -> Result<(Syntax, int), LangError>
    decreases (toks.len() - p) as nat, 5nat,
{
    match member_call(toks, p) {
        Ok((l, q)) => if advances(toks, p, q) {
            multiplicative_rest(toks, q, l)
        } else {
            unexpected(toks, p)
        },
        Err(e) => Err(e),
    }
}

pub open spec fn multiplicative_rest(toks: Seq<Token>, p: int, left: Syntax) -> Result<(Syntax, int), LangError>
    decreases (toks.len() - p) as nat, 5nat,
{
    match operator_at(toks, p, true) {
        Some(c) => match member_call(toks, p + 1) {
            Ok((r, q)) => if advances(toks, p, q) {
                multiplicative_rest(toks, q, Syntax::Binary(Box::new(left), Box::new(r), c))
            } else {
                unexpected(toks, p)
            },
            Err(e) => Err(e),
        },
        None => Ok((left, p)),
    }
}

pub open spec fn additive(toks: Seq<Token>, p: int) -> Result<(Syntax, int), LangError>
    decreases (toks.len() - p) as nat, 6nat,
{
    match multiplicative(toks, p) {
        Ok((l, q)) => if advances(toks, p, q) {
            additive_rest(toks, q, l)
        } else {
            unexpected(toks, p)
        },
        Err(e) => Err(e),
    }
}

pub open spec fn additive_rest(toks: Seq<Token>, p: int, left: Syntax) -> Result<(Syntax, int), LangError>
    decreases (toks.len() - p) as nat, 6nat,
{
    match operator_at(toks, p, false) {
        Some(c) => match multiplicative(toks, p + 1) {
            Ok((r, q)) => if advances(toks, p, q) {
                additive_rest(toks, q, Syntax::Binary(Box::new(left), Box::new(r), c))
            } else {
                unexpected(toks, p)
            },
            Err(e) => Err(e),
        },
        None => Ok((left, p)),
    }
}

pub open spec fn object(toks: Seq<Token>, p: int) -> Result<(Syntax, int), LangError>
    decreases (toks.len() - p) as nat, 7nat,
{
    if at_kind(toks, p, TokenKind::OpenBrace) {
        object_rest(toks, p + 1, Seq::empty())
    } else {
        additive(toks, p)
    }
}

pub open spec fn object_rest(toks: Seq<Token>, p: int, props: Seq<(Seq<char>, Option<Syntax>)>) -> Result<
    (Syntax, int),
    LangError,
>
    decreases (toks.len() - p) as nat, 7nat,
{
    if !(not_eof(toks, p) && !at_kind(toks, p, TokenKind::CloseBrace)) {
        if at_kind(toks, p, TokenKind::CloseBrace) {
            Ok((Syntax::Object(props), p + 1))
        } else {
            unexpected(toks, p)
        }
    } else if 0 <= p < toks.len() && toks[p] is Identifier {
        let key = toks[p]->Identifier_0@;
        if at_kind(toks, p + 1, TokenKind::Comma) {
            object_rest(toks, p + 2, props.push((key, None)))
        } else if at_kind(toks, p + 1, TokenKind::CloseBrace) {
            object_rest(toks, p + 1, props.push((key, None)))
        } else if at_kind(toks, p + 1, TokenKind::Colon) {
            match expression(toks, p + 2) {
                Ok((v, q)) => if advances(toks, p, q) {
                    let more = props.push((key, Some(v)));
                    if at_kind(toks, q, TokenKind::CloseBrace) {
                        object_rest(toks, q, more)
                    } else if at_kind(toks, q, TokenKind::Comma) {
                        object_rest(toks, q + 1, more)
                    } else {
                        unexpected(toks, q)
                    }
                } else {
                    unexpected(toks, q)
                },
                Err(e) => Err(e),
            }
        } else {
            unexpected(toks, p + 1)
        }
    } else {
        unexpected(toks, p)
    }
}

pub open spec fn assignment(toks: Seq<Token>, p: int) -> Result<(Syntax, int), LangError>
    decreases (toks.len() - p) as nat, 8nat,
{
    match object(toks, p) {
        Ok((l, q)) => if at_kind(toks, q, TokenKind::Equals) {
            if p <= q {
                match assignment(toks, q + 1) {
                    Ok((v, r)) => if at_kind(toks, r, TokenKind::Semicolon) {
                        Ok((Syntax::Assignment(Box::new(l), Box::new(v)), r + 1))
                    } else {
                        unexpected(toks, r)
                    },
                    Err(e) => Err(e),
                }
            } else {
                unexpected(toks, q)
            }
        } else {
            Ok((l, q))
        },
        Err(e) => Err(e),
    }
}

pub open spec fn expression(toks: Seq<Token>, p: int) -> Result<(Syntax, int), LangError>
    decreases (toks.len() - p) as nat, 9nat,
{
    assignment(toks, p)
}

/// The implicit initializer of `let name;`.
pub open spec fn null_name() -> Seq<char> {
    seq!['n', 'u', 'l', 'l']
}

pub open spec fn declaration(toks: Seq<Token>, p: int) -> Result<(Syntax, int), LangError>
    decreases (toks.len() - p) as nat, 10nat,
{
    let constant = at_kind(toks, p, TokenKind::Const);
    if 0 <= p + 1 < toks.len() && toks[p + 1] is Identifier {
        let name = toks[p + 1]->Identifier_0@;
        if at_kind(toks, p + 2, TokenKind::Semicolon) {
            if constant {
                Err(LangError::ConstantWithoutValue)
            } else {
                Ok((Syntax::Declaration(false, name, Box::new(Syntax::Name(null_name()))), p + 3))
            }
        } else if at_kind(toks, p + 2, TokenKind::Equals) {
            match expression(toks, p + 3) {
                Ok((v, q)) => if at_kind(toks, q, TokenKind::Semicolon) {
                    Ok((Syntax::Declaration(constant, name, Box::new(v)), q + 1))
                } else {
                    unexpected(toks, q)
                },
                Err(e) => Err(e),
            }
        } else {
            unexpected(toks, p + 2)
        }
    } else {
        unexpected(toks, p + 1)
    }
}

pub open spec fn statement(toks: Seq<Token>, p: int) -> Result<(Syntax, int), LangError>
    decreases (toks.len() - p) as nat, 11nat,
{
    if at_kind(toks, p, TokenKind::Let) || at_kind(toks, p, TokenKind::Const) {
        declaration(toks, p)
    } else {
        expression(toks, p)
    }
}

/// The statements from `p` to the end marker, after those already read.
pub open spec fn program_rest(toks: Seq<Token>, p: int, done: Seq<Syntax>) -> Result<Syntax, LangError>
    decreases (toks.len() - p) as nat,
{
    if not_eof(toks, p) {
        match statement(toks, p) {
            Ok((s, q)) => if advances(toks, p, q) {
                program_rest(toks, q, done.push(s))
            } else {
                unexpected(toks, p)
            },
            Err(e) => Err(e),
        }
    } else {
        Ok(Syntax::Program(done))
    }
}

/// The program that a token sequence spells.
pub open spec fn program(toks: Seq<Token>) -> Result<Syntax, LangError> {
    program_rest(toks, 0, Seq::empty())
}

pub open spec fn num(n: isize) -> Box<Syntax> {
    Box::new(Syntax::Number(n))
}

/// Multiplication binds tighter than addition and subtraction, which group
/// to the left: `a + b * c - d` reads as `(a + (b * c)) - d`.
pub proof fn lemma_precedence_sum(a: isize, b: isize, c: isize, d: isize)
    ensures
        program(
            seq![
                Token::Number(a),
                Token::BinaryOperator('+'),
                Token::Number(b),
                Token::BinaryOperator('*'),
                Token::Number(c),
                Token::BinaryOperator('-'),
                Token::Number(d),
                Token::Eof,
            ],
        ) == Ok::<Syntax, LangError>(
            Syntax::Program(
                seq![
                    Syntax::Binary(
                        Box::new(Syntax::Binary(num(a), Box::new(Syntax::Binary(num(b), num(c), '*')), '+')),
                        num(d),
                        '-',
                    ),
                ],
            ),
        ),
{
    let t = seq![
        Token::Number(a),
        Token::BinaryOperator('+'),
        Token::Number(b),
        Token::BinaryOperator('*'),
        Token::Number(c),
        Token::BinaryOperator('-'),
        Token::Number(d),
        Token::Eof,
    ];
    let na = Syntax::Number(a);
    let nb = Syntax::Number(b);
    let nc = Syntax::Number(c);
    let nd = Syntax::Number(d);
    let bc = Syntax::Binary(num(b), num(c), '*');
    let sum = Syntax::Binary(num(a), Box::new(bc), '+');
    let all = Syntax::Binary(Box::new(sum), num(d), '-');
    assert(member_call(t, 0) == Ok::<(Syntax, int), LangError>((na, 1))) by {
        assert(primary(t, 0) == Ok::<(Syntax, int), LangError>((na, 1)));
        assert(member_rest(t, 1, na) == Ok::<(Syntax, int), LangError>((na, 1)));
    }
    assert(multiplicative(t, 0) == Ok::<(Syntax, int), LangError>((na, 1)));
    assert(member_call(t, 2) == Ok::<(Syntax, int), LangError>((nb, 3))) by {
        assert(primary(t, 2) == Ok::<(Syntax, int), LangError>((nb, 3)));
        assert(member_rest(t, 3, nb) == Ok::<(Syntax, int), LangError>((nb, 3)));
    }
    assert(member_call(t, 4) == Ok::<(Syntax, int), LangError>((nc, 5))) by {
        assert(primary(t, 4) == Ok::<(Syntax, int), LangError>((nc, 5)));
        assert(member_rest(t, 5, nc) == Ok::<(Syntax, int), LangError>((nc, 5)));
    }
    assert(multiplicative_rest(t, 5, bc) == Ok::<(Syntax, int), LangError>((bc, 5)));
    assert(multiplicative_rest(t, 3, nb) == Ok::<(Syntax, int), LangError>((bc, 5)));
    assert(multiplicative(t, 2) == Ok::<(Syntax, int), LangError>((bc, 5)));
    assert(member_call(t, 6) == Ok::<(Syntax, int), LangError>((nd, 7))) by {
        assert(primary(t, 6) == Ok::<(Syntax, int), LangError>((nd, 7)));
        assert(member_rest(t, 7, nd) == Ok::<(Syntax, int), LangError>((nd, 7)));
    }
    assert(multiplicative_rest(t, 7, nd) == Ok::<(Syntax, int), LangError>((nd, 7)));
    assert(multiplicative(t, 6) == Ok::<(Syntax, int), LangError>((nd, 7)));
    assert(additive_rest(t, 7, all) == Ok::<(Syntax, int), LangError>((all, 7)));
    assert(additive_rest(t, 5, sum) == Ok::<(Syntax, int), LangError>((all, 7)));
    assert(additive_rest(t, 1, na) == Ok::<(Syntax, int), LangError>((all, 7)));
    assert(additive(t, 0) == Ok::<(Syntax, int), LangError>((all, 7)));
    assert(object(t, 0) == Ok::<(Syntax, int), LangError>((all, 7)));
    assert(assignment(t, 0) == Ok::<(Syntax, int), LangError>((all, 7)));
    assert(statement(t, 0) == Ok::<(Syntax, int), LangError>((all, 7)));
    assert(program_rest(t, 7, seq![all]) == Ok::<Syntax, LangError>(Syntax::Program(seq![all])));
    assert(seq![all] =~= Seq::<Syntax>::empty().push(all));
}

/// A parenthesised sum is one operand: `a * (b + c)` reads as `a * (b + c)`.
pub proof fn lemma_precedence_parentheses(a: isize, b: isize, c: isize)
    ensures
        program(
            seq![
                Token::Number(a),
                Token::BinaryOperator('*'),
                Token::OpenParen,
                Token::Number(b),
                Token::BinaryOperator('+'),
                Token::Number(c),
                Token::CloseParen,
                Token::Eof,
            ],
        ) == Ok::<Syntax, LangError>(
            Syntax::Program(seq![Syntax::Binary(num(a), Box::new(Syntax::Binary(num(b), num(c), '+')), '*')]),
        ),
{
    let t = seq![
        Token::Number(a),
        Token::BinaryOperator('*'),
        Token::OpenParen,
        Token::Number(b),
        Token::BinaryOperator('+'),
        Token::Number(c),
        Token::CloseParen,
        Token::Eof,
    ];
    let na = Syntax::Number(a);
    let nb = Syntax::Number(b);
    let nc = Syntax::Number(c);
    let bc = Syntax::Binary(num(b), num(c), '+');
    let all = Syntax::Binary(num(a), Box::new(bc), '*');
    assert(member_call(t, 0) == Ok::<(Syntax, int), LangError>((na, 1))) by {
        assert(primary(t, 0) == Ok::<(Syntax, int), LangError>((na, 1)));
        assert(member_rest(t, 1, na) == Ok::<(Syntax, int), LangError>((na, 1)));
    }
    assert(member_call(t, 3) == Ok::<(Syntax, int), LangError>((nb, 4))) by {
        assert(primary(t, 3) == Ok::<(Syntax, int), LangError>((nb, 4)));
        assert(member_rest(t, 4, nb) == Ok::<(Syntax, int), LangError>((nb, 4)));
    }
    assert(multiplicative(t, 3) == Ok::<(Syntax, int), LangError>((nb, 4)));
    assert(member_call(t, 5) == Ok::<(Syntax, int), LangError>((nc, 6))) by {
        assert(primary(t, 5) == Ok::<(Syntax, int), LangError>((nc, 6)));
        assert(member_rest(t, 6, nc) == Ok::<(Syntax, int), LangError>((nc, 6)));
    }
    assert(multiplicative(t, 5) == Ok::<(Syntax, int), LangError>((nc, 6)));
    assert(additive_rest(t, 6, bc) == Ok::<(Syntax, int), LangError>((bc, 6)));
    assert(additive_rest(t, 4, nb) == Ok::<(Syntax, int), LangError>((bc, 6)));
    assert(additive(t, 3) == Ok::<(Syntax, int), LangError>((bc, 6)));
    assert(object(t, 3) == Ok::<(Syntax, int), LangError>((bc, 6)));
    assert(assignment(t, 3) == Ok::<(Syntax, int), LangError>((bc, 6)));
    assert(expression(t, 3) == Ok::<(Syntax, int), LangError>((bc, 6)));
    assert(member_call(t, 2) == Ok::<(Syntax, int), LangError>((bc, 7))) by {
        assert(primary(t, 2) == Ok::<(Syntax, int), LangError>((bc, 7)));
        assert(member_rest(t, 7, bc) == Ok::<(Syntax, int), LangError>((bc, 7)));
    }
    assert(multiplicative_rest(t, 7, all) == Ok::<(Syntax, int), LangError>((all, 7)));
    assert(multiplicative_rest(t, 1, na) == Ok::<(Syntax, int), LangError>((all, 7)));
    assert(multiplicative(t, 0) == Ok::<(Syntax, int), LangError>((all, 7)));
    assert(additive_rest(t, 7, all) == Ok::<(Syntax, int), LangError>((all, 7)));
    assert(additive(t, 0) == Ok::<(Syntax, int), LangError>((all, 7)));
    assert(object(t, 0) == Ok::<(Syntax, int), LangError>((all, 7)));
    assert(assignment(t, 0) == Ok::<(Syntax, int), LangError>((all, 7)));
    assert(statement(t, 0) == Ok::<(Syntax, int), LangError>((all, 7)));
    assert(program_rest(t, 7, seq![all]) == Ok::<Syntax, LangError>(Syntax::Program(seq![all])));
    assert(seq![all] =~= Seq::<Syntax>::empty().push(all));
}

} // verus!
