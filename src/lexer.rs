use vstd::prelude::*;
use vstd::string::*;
use vstd::utf8::is_ascii_chars;
use crate::error::LangError;
use crate::token::{kind_of, Token, TokenKind};

verus! {

broadcast use vstd::string::is_ascii_spec_bytes;

pub open spec fn is_digit(c: char) -> bool {
    '0' <= c <= '9'
}

pub open spec fn is_letter(c: char) -> bool {
    ('a' <= c <= 'z') || ('A' <= c <= 'Z')
}

pub open spec fn is_space(c: char) -> bool {
    c == ' ' || c == '\t' || c == '\n' || c == '\r'
}

pub open spec fn is_operator(c: char) -> bool {
    c == '+' || c == '-' || c == '*' || c == '/' || c == '%'
}

/// A character that makes a token of its own.
pub open spec fn is_symbol(c: char) -> bool {
    c == '(' || c == ')' || c == '{' || c == '}' || c == '[' || c == ']' || c == '=' || c == ';'
        || c == ':' || c == ',' || c == '.' || is_operator(c)
}

/// A character that may stand in a source text.
pub open spec fn is_accepted(c: char) -> bool {
    is_symbol(c) || is_space(c) || is_digit(c) || is_letter(c)
}

pub open spec fn is_keyword(s: Seq<char>) -> bool {
    s == seq!['l', 'e', 't'] || s == seq!['c', 'o', 'n', 's', 't']
}

/// What holds of every token that the lexer emits before the end marker.
pub open spec fn well_formed_token(t: Token) -> bool {
    match t {
        Token::Eof => false,
        Token::Identifier(s) => s@.len() > 0 && !is_keyword(s@) && forall|i: int|
            0 <= i < s@.len() ==> is_letter(#[trigger] s@[i]),
        Token::BinaryOperator(c) => is_operator(c),
        Token::Number(n) => n >= 0,
        _ => true,
    }
}

/// A token sequence ending in exactly one end marker.
pub open spec fn ends_with_single_eof(ts: Seq<Token>) -> bool {
    &&& ts.len() > 0
    &&& ts.last() is Eof
    &&& forall|i: int| 0 <= i < ts.len() - 1 ==> !(#[trigger] ts[i] is Eof)
}

/// A token as the lexical rules see it.
pub enum Lexeme {
    Fixed(TokenKind),
    Operator(char),
    Number(int),
    Name(Seq<char>),
}

pub open spec fn lexeme(t: Token) -> Lexeme {
    match t {
        Token::BinaryOperator(c) => Lexeme::Operator(c),
        Token::Number(n) => Lexeme::Number(n as int),
        Token::Identifier(s) => Lexeme::Name(s@),
        _ => Lexeme::Fixed(kind_of(t)),
    }
}

pub open spec fn lexemes(ts: Seq<Token>) -> Seq<Lexeme> {
    ts.map_values(|t: Token| lexeme(t))
}

/// The token that a one-character symbol makes.
pub open spec fn symbol_lexeme(c: char) -> Lexeme {
    if c == '(' {
        Lexeme::Fixed(TokenKind::OpenParen)
    } else if c == ')' {
        Lexeme::Fixed(TokenKind::CloseParen)
    } else if c == '{' {
        Lexeme::Fixed(TokenKind::OpenBrace)
    } else if c == '}' {
        Lexeme::Fixed(TokenKind::CloseBrace)
    } else if c == '[' {
        Lexeme::Fixed(TokenKind::OpenBracket)
    } else if c == ']' {
        Lexeme::Fixed(TokenKind::CloseBracket)
    } else if c == '=' {
        Lexeme::Fixed(TokenKind::Equals)
    } else if c == ';' {
        Lexeme::Fixed(TokenKind::Semicolon)
    } else if c == ':' {
        Lexeme::Fixed(TokenKind::Colon)
    } else if c == ',' {
        Lexeme::Fixed(TokenKind::Comma)
    } else if c == '.' {
        Lexeme::Fixed(TokenKind::Dot)
    } else {
        Lexeme::Operator(c)
    }
}

/// The token that a run of letters makes: a keyword or a name.
pub open spec fn word_lexeme(w: Seq<char>) -> Lexeme {
    if w == seq!['l', 'e', 't'] {
        Lexeme::Fixed(TokenKind::Let)
    } else if w == seq!['c', 'o', 'n', 's', 't'] {
        Lexeme::Fixed(TokenKind::Const)
    } else {
        Lexeme::Name(w)
    }
}

/// Where the run of digits (or of letters) that starts at `i` ends.
pub open spec fn run_end(s: Seq<char>, i: int, digits: bool) -> int
    decreases s.len() - i,
{
    if 0 <= i < s.len() && (if digits { is_digit(s[i]) } else { is_letter(s[i]) }) {
        run_end(s, i + 1, digits)
    } else {
        i
    }
}

/// The number that a sequence of decimal digits writes.
pub open spec fn digits_value(d: Seq<char>) -> int
    decreases d.len(),
{
    if d.len() == 0 {
        0
    } else {
        digits_value(d.drop_last()) * 10 + (d.last() as int - '0' as int)
    }
}

pub open spec fn prepend(l: Lexeme, r: Result<Seq<Lexeme>, LangError>) -> Result<Seq<Lexeme>, LangError> {
    match r {
        Ok(rest) => Ok(seq![l] + rest),
        Err(e) => Err(e),
    }
}

/// The tokens of `s` from position `i` on, or the first error met there.
pub open spec fn lex_from(s: Seq<char>, i: int) -> Result<Seq<Lexeme>, LangError>
    decreases s.len() - i,
{
    if i < 0 || i >= s.len() {
        Ok(seq![Lexeme::Fixed(TokenKind::Eof)])
    } else if is_symbol(s[i]) {
        prepend(symbol_lexeme(s[i]), lex_from(s, i + 1))
    } else if is_space(s[i]) {
        lex_from(s, i + 1)
    } else if is_digit(s[i]) {
        let j = run_end(s, i, true);
        let v = digits_value(s.subrange(i, j));
        if v > isize::MAX {
            Err(LangError::NumberTooLarge)
        } else if i < j <= s.len() {
            prepend(Lexeme::Number(v), lex_from(s, j))
        } else {
            Err(LangError::NumberTooLarge)
        }
    } else if is_letter(s[i]) {
        let j = run_end(s, i, false);
        if i < j <= s.len() {
            prepend(word_lexeme(s.subrange(i, j)), lex_from(s, j))
        } else {
            Err(LangError::InvalidCharacter(s[i]))
        }
    } else {
        Err(LangError::InvalidCharacter(s[i]))
    }
}

/// The tokens of a source text, or the first error met in it.
pub open spec fn lex(s: Seq<char>) -> Result<Seq<Lexeme>, LangError> {
    if !is_ascii_chars(s) {
        Err(LangError::NonAscii)
    } else {
        lex_from(s, 0)
    }
}

/// `done` followed by what `r` holds.
pub open spec fn extend(done: Seq<Lexeme>, r: Result<Seq<Lexeme>, LangError>) -> Result<Seq<Lexeme>, LangError> {
    match r {
        Ok(rest) => Ok(done + rest),
        Err(e) => Err(e),
    }
}

proof fn lemma_extend_prepend(done: Seq<Lexeme>, l: Lexeme, r: Result<Seq<Lexeme>, LangError>)
    ensures
        extend(done, prepend(l, r)) == extend(done.push(l), r),
{
    if let Ok(rest) = r {
        assert(done + (seq![l] + rest) =~= done.push(l) + rest);
    }
}

proof fn lemma_lexemes_push(ts: Seq<Token>, t: Token)
    ensures
        lexemes(ts.push(t)) == lexemes(ts).push(lexeme(t)),
{
    assert(lexemes(ts.push(t)) =~= lexemes(ts).push(lexeme(t)));
}

proof fn lemma_run_end(s: Seq<char>, i: int, digits: bool)
    requires
        0 <= i <= s.len(),
    ensures
        i <= run_end(s, i, digits) <= s.len(),
        forall|k: int| i <= k < run_end(s, i, digits) ==> (if digits { is_digit(#[trigger] s[k]) } else { is_letter(s[k]) }),
    decreases s.len() - i,
{
    if 0 <= i < s.len() && (if digits { is_digit(s[i]) } else { is_letter(s[i]) }) {
        lemma_run_end(s, i + 1, digits);
    }
}

proof fn lemma_digits_value_grows(s: Seq<char>, i: int, k: int, j: int)
    requires
        0 <= i <= k <= j <= s.len(),
        forall|m: int| i <= m < j ==> is_digit(#[trigger] s[m]),
    ensures
        0 <= digits_value(s.subrange(i, k)) <= digits_value(s.subrange(i, j)),
    decreases j - i,
{
    if j > k {
        lemma_digits_value_grows(s, i, k, j - 1);
        assert(s.subrange(i, j).drop_last() =~= s.subrange(i, j - 1));
        let a = digits_value(s.subrange(i, j - 1));
        let d = s[j - 1] as int - '0' as int;
        assert(0 <= d);
        assert(a <= a * 10 + d) by (nonlinear_arith)
            requires
                0 <= a,
                0 <= d,
        ;
    } else if k > i {
        lemma_digits_value_grows(s, i, k - 1, k - 1);
        assert(s.subrange(i, k).drop_last() =~= s.subrange(i, k - 1));
        let a = digits_value(s.subrange(i, k - 1));
        let d = s[k - 1] as int - '0' as int;
        assert(0 <= a * 10 + d) by (nonlinear_arith)
            requires
                0 <= a,
                0 <= d,
        ;
    } else {
        assert(s.subrange(i, k) =~= Seq::<char>::empty());
    }
}

fn symbol_token(b: u8) -> (r: Option<Token>)
    ensures
        r matches Some(t) ==> well_formed_token(t) && lexeme(t) == symbol_lexeme(b as char),
        r is Some <==> is_symbol(b as char),
        b <= 0x7f ==> (r == Some(Token::BinaryOperator(b as char)) <==> is_operator(b as char)),
{
    if b == 40 {
        Some(Token::OpenParen)
    } else if b == 41 {
        Some(Token::CloseParen)
    } else if b == 123 {
        Some(Token::OpenBrace)
    } else if b == 125 {
        Some(Token::CloseBrace)
    } else if b == 91 {
        Some(Token::OpenBracket)
    } else if b == 93 {
        Some(Token::CloseBracket)
    } else if b == 61 {
        Some(Token::Equals)
    } else if b == 59 {
        Some(Token::Semicolon)
    } else if b == 58 {
        Some(Token::Colon)
    } else if b == 44 {
        Some(Token::Comma)
    } else if b == 46 {
        Some(Token::Dot)
    } else if b == 43 || b == 45 || b == 42 || b == 47 || b == 37 {
        Some(Token::BinaryOperator(b as char))
    } else {
        None
    }
}

/// Splits a source text into tokens, ending with the end marker.
pub fn tokenize(source: String) -> (r: Result<Vec<Token>, LangError>)
    ensures
        !is_ascii_chars(source@) ==> r == Err::<Vec<Token>, LangError>(LangError::NonAscii),
        r matches Ok(ts) ==> {
            &&& ends_with_single_eof(ts@)
            &&& forall|i: int| 0 <= i < ts@.len() - 1 ==> well_formed_token(#[trigger] ts@[i])
            &&& forall|i: int| 0 <= i < source@.len() ==> is_accepted(#[trigger] source@[i])
        },
        r matches Err(LangError::InvalidCharacter(c)) ==> exists|i: int|
            0 <= i < source@.len() && source@[i] == c && !is_accepted(c)
            && forall|j: int| 0 <= j < i ==> is_accepted(#[trigger] source@[j]),
        r matches Err(e) ==> e is NonAscii || e is InvalidCharacter || e is NumberTooLarge,
        is_ascii_chars(source@) && (exists|i: int| 0 <= i < source@.len() && !is_accepted(#[trigger] source@[i]))
            ==> r is Err && !(r == Err::<Vec<Token>, LangError>(LangError::NonAscii)),
        match r {
            Ok(ts) => lex(source@) == Ok::<Seq<Lexeme>, LangError>(lexemes(ts@)),
            Err(e) => lex(source@) == Err::<Seq<Lexeme>, LangError>(e),
        },
{
    let s = source.as_str();
    if !s.is_ascii() {
        return Err(LangError::NonAscii);
    }
    let bytes = s.as_bytes();
    proof {
        assert(bytes@ =~= Seq::new(s@.len(), |i| s@.index(i) as u8));
    }
    let n = bytes.len();
    let mut tokens: Vec<Token> = Vec::new();
    let mut i: usize = 0;
    proof {
        assert(lexemes(tokens@) =~= Seq::empty());
        if let Ok(rest) = lex_from(s@, 0) {
            assert(Seq::<Lexeme>::empty() + rest =~= rest);
        }
    }
    while i < n
        invariant
            lex_from(s@, 0) == extend(lexemes(tokens@), lex_from(s@, i as int)),
            n == bytes@.len() == s@.len() == source@.len(),
            s@ == source@,
            is_ascii_chars(s@),
            forall|j: int| 0 <= j < n ==> (#[trigger] bytes@[j]) as char == s@[j],
            0 <= i <= n,
            forall|j: int| 0 <= j < i ==> is_accepted(#[trigger] s@[j]),
            forall|j: int| 0 <= j < tokens@.len() ==> well_formed_token(#[trigger] tokens@[j]),
        decreases n - i,
    {
        let b = bytes[i];
        let sym = symbol_token(b);
        let ghost pre = lexemes(tokens@);
        if let Some(t) = sym {
            proof {
                lemma_extend_prepend(pre, lexeme(t), lex_from(s@, i + 1));
                lemma_lexemes_push(tokens@, t);
            }
            tokens.push(t);
            i = i + 1;
        } else if b == 32 || b == 9 || b == 10 || b == 13 {
            i = i + 1;
        } else if 48 <= b && b <= 57 {
            let mut value: isize = 0;
            let start = i;
            proof {
                lemma_run_end(s@, start as int, true);
                assert(s@.subrange(start as int, start as int) =~= Seq::<char>::empty());
            }
            while i < n && 48 <= bytes[i] && bytes[i] <= 57
                invariant
                    n == bytes@.len() == s@.len() == source@.len(),
                    s@ == source@,
                    is_ascii_chars(s@),
                    start < n,
                    bytes@[start as int] == b,
                    48 <= b <= 57,
                    start <= i,
                    value == digits_value(s@.subrange(start as int, i as int)),
                    run_end(s@, start as int, true) == run_end(s@, i as int, true),
                    start as int <= i <= run_end(s@, start as int, true) <= n,
                    forall|k: int| start <= k < run_end(s@, start as int, true) ==> is_digit(#[trigger] s@[k]),
                    lex_from(s@, 0) == extend(lexemes(tokens@), lex_from(s@, start as int)),
                    is_digit(s@[start as int]),
                    forall|j: int| 0 <= j < n ==> (#[trigger] bytes@[j]) as char == s@[j],
                    0 <= i <= n,
                    value >= 0,
                    forall|j: int| 0 <= j < i ==> is_accepted(#[trigger] s@[j]),
                decreases n - i,
            {
                proof {
                    assert(is_digit(s@[i as int]));
                    assert(run_end(s@, i as int, true) == run_end(s@, i + 1, true));
                    lemma_run_end(s@, i + 1, true);
                }
                let digit = (bytes[i] - 48) as isize;
                let ghost next_digits = s@.subrange(start as int, i + 1);
                proof {
                    assert(next_digits.drop_last() =~= s@.subrange(start as int, i as int));
                    assert(digit as int == s@[i as int] as int - '0' as int);
                    assert(digits_value(next_digits) == value * 10 + digit);
                }
                let scaled = value.checked_mul(10);
                let next = match scaled {
                    Some(v) => v.checked_add(digit),
                    None => None,
                };
                match next {
                    Some(v) => {
                        value = v;
                    },
                    None => {
                        proof {
                            assert(value * 10 + digit > isize::MAX);
                            lemma_digits_value_grows(s@, start as int, i + 1, run_end(s@, start as int, true));
                        }
                        return Err(LangError::NumberTooLarge);
                    },
                }
                i = i + 1;
            }
            proof {
                lemma_extend_prepend(pre, Lexeme::Number(value as int), lex_from(s@, i as int));
                lemma_lexemes_push(tokens@, Token::Number(value));
            }
            tokens.push(Token::Number(value));
        } else if (65 <= b && b <= 90) || (97 <= b && b <= 122) {
            let start = i;
            proof {
                lemma_run_end(s@, start as int, false);
            }
            while i < n && ((65 <= bytes[i] && bytes[i] <= 90) || (97 <= bytes[i] && bytes[i] <= 122))
                invariant
                    n == bytes@.len() == s@.len() == source@.len(),
                    s@ == source@,
                    is_ascii_chars(s@),
                    bytes@[start as int] == b,
                    forall|j: int| 0 <= j < n ==> (#[trigger] bytes@[j]) as char == s@[j],
                    start < n,
                    is_letter(s@[start as int]),
                    start <= i <= n,
                    forall|j: int| 0 <= j < i ==> is_accepted(#[trigger] s@[j]),
                    forall|j: int| start <= j < i ==> is_letter(#[trigger] s@[j]),
                    run_end(s@, start as int, false) == run_end(s@, i as int, false),
                    i <= run_end(s@, start as int, false) <= n,
                    lex_from(s@, 0) == extend(lexemes(tokens@), lex_from(s@, start as int)),
                decreases n - i,
            {
                proof {
                    assert(is_letter(s@[i as int]));
                    assert(run_end(s@, i as int, false) == run_end(s@, i + 1, false));
                    lemma_run_end(s@, i + 1, false);
                }
                i = i + 1;
            }
            let word = String::from_str(s.substring_ascii(start, i));
            let let_word = String::from_str("let");
            let const_word = String::from_str("const");
            proof {
                reveal_strlit("let");
                reveal_strlit("const");
                assert(word@ =~= s@.subrange(start as int, i as int));
            }
            let ghost w = word@;
            proof {
                assert(let_word@ =~= seq!['l', 'e', 't']);
                assert(const_word@ =~= seq!['c', 'o', 'n', 's', 't']);
            }
            if word == let_word {
                proof {
                    lemma_extend_prepend(pre, word_lexeme(w), lex_from(s@, i as int));
                    lemma_lexemes_push(tokens@, Token::Let);
                }
                tokens.push(Token::Let);
            } else if word == const_word {
                proof {
                    lemma_extend_prepend(pre, word_lexeme(w), lex_from(s@, i as int));
                    lemma_lexemes_push(tokens@, Token::Const);
                }
                tokens.push(Token::Const);
            } else {
                proof {
                    lemma_extend_prepend(pre, word_lexeme(w), lex_from(s@, i as int));
                    lemma_lexemes_push(tokens@, Token::Identifier(word));
                }
                proof {
                    assert(let_word@ =~= seq!['l', 'e', 't']);
                    assert(const_word@ =~= seq!['c', 'o', 'n', 's', 't']);
                }
                tokens.push(Token::Identifier(word));
            }
        } else {
            let c = s.get_char(i);
            return Err(LangError::InvalidCharacter(c));
        }
    }
    let ghost before = tokens@;
    proof {
        lemma_lexemes_push(tokens@, Token::Eof);
        assert(lexemes(before) + seq![Lexeme::Fixed(TokenKind::Eof)] =~= lexemes(before).push(Lexeme::Fixed(TokenKind::Eof)));
    }
    tokens.push(Token::Eof);
    proof {
        assert(tokens@.drop_last() =~= before);
    }
    Ok(tokens)
}

} // verus!
