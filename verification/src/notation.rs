//! The bracketed notation of terms: `^x.(M)` is an abstraction, whose body
//! stands in round brackets, application is written side by side and takes
//! its operands from the left, and a variable is a small letter with any
//! number of primes after it.

use vstd::prelude::*;
use crate::lexer::{byte_place, byte_places};
use crate::plain::node;
use crate::term::{Body, Term, VarId};
use crate::text::chars_of;

verus! {

/// The symbols of the notation: those of its tokens, and those of its
/// grammar.
#[derive(Debug, Clone, Copy, PartialEq, Eq, Structural)]
pub enum Sym {
    /// The marker of an abstraction: `λ`, `^` or `\`.
    LambdaChar,
    /// A variable: a small letter and primes.
    Var,
    /// The separator before the body of an abstraction: `.` or `->`.
    Body,
    OpenParen,
    CloseParen,
    /// Blank space.
    Ws,
    /// A character that starts no token, with the places where it starts
    /// and ends, counted in bytes.
    Unknown(usize, usize),
    Expr,
    Token,
    EntryPoint,
    Lambda,
    App,
    Eof,
}

/// A token: its symbol, the identifier of its variable where it is one, and
/// the places where it starts and ends in the text, counted in bytes.
#[derive(Debug, Clone, Copy, PartialEq, Eq, Structural)]
pub struct Gramem {
    pub sym: Sym,
    pub var: VarId,
    pub start: usize,
    pub end: usize,
}

/// What can be wrong with a term in the bracketed notation.
#[derive(Debug, Clone, Copy, PartialEq, Eq, Structural)]
pub enum Error {
    /// A token stands where the grammar has no use for it; with the symbol
    /// and the place of the token among the tokens.
    UnexpectedToken(Sym, usize),
    /// The tokens end where the grammar wants more.
    UnexpectedEof,
}

/// The number of letters that variables are named with.
pub const LETTERS: usize = 26;

/// Where the primes from place `i` on end.
pub open spec fn primes_end(s: Seq<char>, i: int) -> int
    decreases s.len() - i,
{
    if 0 <= i < s.len() && s[i] == '\'' {
        primes_end(s, i + 1)
    } else {
        i
    }
}

/// The identifier of the variable written as the letter `c` and `primes`
/// primes: the place of the letter among the letters, and 26 more for each
/// prime.
pub open spec fn var_id(c: char, primes: int) -> int {
    primes * 26 + (c as int - 'a' as int)
}

/// A blank character of the notation.
pub open spec fn is_space(c: char) -> bool {
    c == ' ' || c == '\t' || c == '\n' || c == '\r'
}

/// The error for the character at place `i` of `s`, which starts no token.
pub open spec fn unknown_at(s: Seq<char>, i: int) -> Error {
    Error::UnexpectedToken(
        Sym::Unknown(byte_place(s, i) as usize, byte_place(s, i + 1) as usize),
        0,
    )
}

/// The tokens of the text `s` from place `i` on; or the symbol of the
/// character that starts no token.
pub open spec fn lex_from(s: Seq<char>, i: int) -> Result<Seq<Gramem>, Error>
    decreases s.len() - i,
{
    if !(0 <= i < s.len()) {
        Ok(Seq::empty())
    } else {
        let c = s[i];
        if is_space(c) {
            lex_from(s, i + 1)
        } else {
            let found: Option<(Sym, int, int)> = if c == 'λ' || c == '^' || c == '\\' {
                Some((Sym::LambdaChar, 0, i + 1))
            } else if c == '.' {
                Some((Sym::Body, 0, i + 1))
            } else if c == '-' && i + 1 < s.len() && s[i + 1] == '>' {
                Some((Sym::Body, 0, i + 2))
            } else if c == '(' {
                Some((Sym::OpenParen, 0, i + 1))
            } else if c == ')' {
                Some((Sym::CloseParen, 0, i + 1))
            } else if 'a' <= c <= 'z' {
                let e = primes_end(s, i + 1);
                Some((Sym::Var, var_id(c, e - (i + 1)), e))
            } else {
                None
            };
            match found {
                Some((sym, var, e)) => if i < e <= s.len() && 0 <= var <= usize::MAX {
                    match lex_from(s, e) {
                        Ok(rest) => Ok(
                            seq![
                                Gramem {
                                    sym,
                                    var: var as usize,
                                    start: byte_place(s, i) as usize,
                                    end: byte_place(s, e) as usize,
                                },
                            ] + rest,
                        ),
                        Err(e) => Err(e),
                    }
                } else {
                    Err(unknown_at(s, i))
                },
                None => Err(unknown_at(s, i)),
            }
        }
    }
}

/// What a rule makes of the tokens from a place on: a term and the place
/// after it, or an error.
pub type Parsed = Result<(Term, int), Error>;

/// The error of the token at place `i`, or of the end of the tokens.
pub open spec fn unexpected(ts: Seq<Gramem>, i: int) -> Error {
    if 0 <= i < ts.len() {
        Error::UnexpectedToken(ts[i].sym, i as usize)
    } else {
        Error::UnexpectedEof
    }
}

/// The token at place `i` has the symbol `sym`.
pub open spec fn is_sym(ts: Seq<Gramem>, i: int, sym: Sym) -> bool {
    0 <= i < ts.len() && ts[i].sym == sym
}

/// The token at place `i` starts an expression.
pub open spec fn starts_expr(ts: Seq<Gramem>, i: int) -> bool {
    is_sym(ts, i, Sym::OpenParen) || is_sym(ts, i, Sym::LambdaChar) || is_sym(ts, i, Sym::Var)
}

/// The rule for expressions at place `i`: an application in round
/// brackets, an abstraction, or a variable.
pub open spec fn parse_expr(ts: Seq<Gramem>, i: int) -> Parsed
    decreases ts.len() - i, 0nat,
{
    if is_sym(ts, i, Sym::OpenParen) {
        match parse_app(ts, i + 1) {
            Ok((t, j)) => if is_sym(ts, j, Sym::CloseParen) {
                Ok((t, j + 1))
            } else {
                Err(unexpected(ts, j))
            },
            Err(e) => Err(e),
        }
    } else if is_sym(ts, i, Sym::LambdaChar) {
        if !is_sym(ts, i + 1, Sym::Var) {
            Err(unexpected(ts, i + 1))
        } else if !is_sym(ts, i + 2, Sym::Body) {
            Err(unexpected(ts, i + 2))
        } else if !is_sym(ts, i + 3, Sym::OpenParen) {
            Err(unexpected(ts, i + 3))
        } else {
            match parse_app(ts, i + 4) {
                Ok((b, j)) => if is_sym(ts, j, Sym::CloseParen) {
                    Ok((node(Body::Abs(ts[i + 1].var, b)), j + 1))
                } else {
                    Err(unexpected(ts, j))
                },
                Err(e) => Err(e),
            }
        }
    } else if is_sym(ts, i, Sym::Var) {
        Ok((node(Body::Var(ts[i].var)), i + 1))
    } else {
        Err(unexpected(ts, i))
    }
}

/// The operands that follow the application `acc`, which ends before place
/// `i`.
pub open spec fn parse_rest(ts: Seq<Gramem>, i: int, acc: Term) -> Parsed
    decreases ts.len() - i, 1nat,
{
    if starts_expr(ts, i) {
        match parse_expr(ts, i) {
            Ok((a, j)) => if i < j <= ts.len() {
                parse_rest(ts, j, node(Body::App(acc, a)))
            } else {
                Err(unexpected(ts, i))
            },
            Err(e) => Err(e),
        }
    } else {
        Ok((acc, i))
    }
}

/// The rule for applications at place `i`: an expression, applied to the
/// expressions that follow it, from left to right.
pub open spec fn parse_app(ts: Seq<Gramem>, i: int) -> Parsed
    decreases ts.len() - i, 2nat,
{
    if !(0 <= i < ts.len()) {
        Err(Error::UnexpectedEof)
    } else {
        match parse_expr(ts, i) {
            Ok((a, j)) => if i < j <= ts.len() {
                parse_rest(ts, j, a)
            } else {
                Err(unexpected(ts, i))
            },
            Err(e) => Err(e),
        }
    }
}

/// The term that all the tokens together spell.
pub open spec fn term_of(ts: Seq<Gramem>) -> Result<Term, Error> {
    match parse_app(ts, 0) {
        Ok((t, j)) => if j == ts.len() {
            Ok(t)
        } else {
            Err(unexpected(ts, j))
        },
        Err(e) => Err(e),
    }
}

/// The term that a text spells.
pub open spec fn term_of_text(s: Seq<char>) -> Result<Term, Error> {
    match lex_from(s, 0) {
        Ok(ts) => term_of(ts),
        Err(e) => Err(e),
    }
}

/// The tokens of a text. The first character that starts no token ends the
/// work with an error that holds its place.
pub fn try_lexer(src: &str) -> (r: Result<Vec<Gramem>, Error>)
    ensures
        match lex_from(src@, 0) {
            Ok(ts) => r is Ok && r->Ok_0@ == ts,
            Err(e) => r == Err::<Vec<Gramem>, Error>(e),
        },
{
    let chars = chars_of(src);
    let places = byte_places(src, &chars);
    let mut out: Vec<Gramem> = Vec::new();
    let mut i: usize = 0;
    proof {
        match lex_from(chars@, 0) {
            Ok(rest) => {
                assert(out@ + rest =~= rest);
            },
            Err(_) => {},
        }
    }
    while i < chars.len()
        invariant
            i <= chars.len(),
            chars@ == src@,
            places.len() == chars.len() + 1,
            forall|k: int| 0 <= k <= chars.len() ==> places[k] == byte_place(chars@, k),
            match lex_from(chars@, i as int) {
                Ok(rest) => lex_from(chars@, 0) == Ok::<Seq<Gramem>, Error>(out@ + rest),
                Err(e) => lex_from(chars@, 0) == Err::<Seq<Gramem>, Error>(e),
            },
        decreases chars.len() - i,
    {
        let c = chars[i];
        if c == ' ' || c == '\t' || c == '\n' || c == '\r' {
            i = i + 1;
            continue ;
        }
        let found: Option<(Sym, usize, usize)> = if c == 'λ' || c == '^' || c == '\\' {
            Some((Sym::LambdaChar, 0, i + 1))
        } else if c == '.' {
            Some((Sym::Body, 0, i + 1))
        } else if c == '-' && i + 1 < chars.len() && chars[i + 1] == '>' {
            Some((Sym::Body, 0, i + 2))
        } else if c == '(' {
            Some((Sym::OpenParen, 0, i + 1))
        } else if c == ')' {
            Some((Sym::CloseParen, 0, i + 1))
        } else if 'a' <= c && c <= 'z' {
            let mut e: usize = i + 1;
            while e < chars.len() && chars[e] == '\''
                invariant
                    i < e <= chars.len(),
                    primes_end(chars@, i + 1) == primes_end(chars@, e as int),
                decreases chars.len() - e,
            {
                e = e + 1;
            }
            let letter = ((c as u32) - ('a' as u32)) as usize;
            match (e - (i + 1)).checked_mul(26) {
                Some(p) => match p.checked_add(letter) {
                    Some(id) => Some((Sym::Var, id, e)),
                    None => None,
                },
                None => None,
            }
        } else {
            None
        };
        match found {
            Some((sym, var, e)) => {
                let token = Gramem { sym, var, start: places[i], end: places[e] };
                proof {
                    match lex_from(chars@, e as int) {
                        Ok(rest) => {
                            assert(out@ + (seq![token] + rest) =~= out@.push(token) + rest);
                        },
                        Err(_) => {},
                    }
                }
                out.push(token);
                i = e;
            },
            None => {
                return Err(Error::UnexpectedToken(Sym::Unknown(places[i], places[i + 1]), 0));
            },
        }
    }
    proof {
        assert(out@ + Seq::<Gramem>::empty() =~= out@);
    }
    Ok(out)
}

fn has_sym(tokens: &Vec<Gramem>, i: usize, sym: Sym) -> (r: bool)
    ensures
        r == is_sym(tokens@, i as int, sym),
{
    i < tokens.len() && tokens[i].sym == sym
}

fn unexpected_at(tokens: &Vec<Gramem>, i: usize) -> (e: Error)
    ensures
        e == unexpected(tokens@, i as int),
{
    if i < tokens.len() {
        Error::UnexpectedToken(tokens[i].sym, i)
    } else {
        Error::UnexpectedEof
    }
}

/// An exec result is the result of a rule: the same term and place, or the
/// same error.
pub open spec fn is_parsed(r: Result<(Term, usize), Error>, p: Parsed, from: int, len: int) -> bool {
    match p {
        Ok((t, j)) => r is Ok && (r->Ok_0).0 == t && (r->Ok_0).1 == j && from < j <= len && t.wf(),
        Err(e) => r == Err::<(Term, usize), Error>(e),
    }
}

fn expr_at(tokens: &Vec<Gramem>, i: usize) -> (r: Result<(Term, usize), Error>)
    requires
        i <= tokens.len(),
    ensures
        is_parsed(r, parse_expr(tokens@, i as int), i as int, tokens.len() as int),
    decreases tokens.len() - i, 0nat,
{
    if has_sym(tokens, i, Sym::OpenParen) {
        match app_at(tokens, i + 1) {
            Ok((t, j)) => {
                if has_sym(tokens, j, Sym::CloseParen) {
                    Ok((t, j + 1))
                } else {
                    Err(unexpected_at(tokens, j))
                }
            },
            Err(e) => Err(e),
        }
    } else if has_sym(tokens, i, Sym::LambdaChar) {
        if !has_sym(tokens, i + 1, Sym::Var) {
            Err(unexpected_at(tokens, i + 1))
        } else if !has_sym(tokens, i + 2, Sym::Body) {
            Err(unexpected_at(tokens, i + 2))
        } else if !has_sym(tokens, i + 3, Sym::OpenParen) {
            Err(unexpected_at(tokens, i + 3))
        } else {
            match app_at(tokens, i + 4) {
                Ok((b, j)) => {
                    if has_sym(tokens, j, Sym::CloseParen) {
                        Ok((Term::new(Body::Abs(tokens[i + 1].var, b)), j + 1))
                    } else {
                        Err(unexpected_at(tokens, j))
                    }
                },
                Err(e) => Err(e),
            }
        }
    } else if has_sym(tokens, i, Sym::Var) {
        Ok((Term::new(Body::Var(tokens[i].var)), i + 1))
    } else {
        Err(unexpected_at(tokens, i))
    }
}

fn app_at(tokens: &Vec<Gramem>, i: usize) -> (r: Result<(Term, usize), Error>)
    requires
        i <= tokens.len(),
    ensures
        is_parsed(r, parse_app(tokens@, i as int), i as int, tokens.len() as int),
    decreases tokens.len() - i, 2nat,
{
    if i >= tokens.len() {
        return Err(Error::UnexpectedEof);
    }
    let (first, start) = match expr_at(tokens, i) {
        Ok(found) => found,
        Err(e) => {
            return Err(e);
        },
    };
    let mut acc = first;
    let mut j = start;
    while has_sym(tokens, j, Sym::OpenParen) || has_sym(tokens, j, Sym::LambdaChar) || has_sym(
        tokens,
        j,
        Sym::Var,
    )
        invariant
            i < j <= tokens.len(),
            acc.wf(),
            parse_app(tokens@, i as int) == parse_rest(tokens@, j as int, acc),
        decreases tokens.len() - j,
    {
        match expr_at(tokens, j) {
            Ok((a, next)) => {
                acc = Term::new(Body::App(acc, a));
                j = next;
            },
            Err(e) => {
                return Err(e);
            },
        }
    }
    Ok((acc, j))
}

/// Parses the term that all the tokens together spell.
pub fn parse(tokens: &Vec<Gramem>) -> (r: Result<Term, Error>)
    ensures
        r == term_of(tokens@),
        r is Ok ==> r->Ok_0.wf(),
{
    match app_at(tokens, 0) {
        Ok((t, j)) => {
            if j == tokens.len() {
                Ok(t)
            } else {
                Err(unexpected_at(tokens, j))
            }
        },
        Err(e) => Err(e),
    }
}

/// Parses a term in the bracketed notation and sets its flags.
pub fn try_from_str(s: &str) -> (r: Result<Term, Error>)
    ensures
        match term_of_text(s@) {
            Ok(t) => r is Ok && r->Ok_0.same_tree(t) && r->Ok_0.flags_exact() && r->Ok_0.wf(),
            Err(e) => r == Err::<Term, Error>(e),
        },
{
    let tokens = match try_lexer(s) {
        Ok(tokens) => tokens,
        Err(e) => {
            return Err(e);
        },
    };
    match parse(&tokens) {
        Ok(t) => {
            let mut t = t;
            t.update_closed();
            Ok(t)
        },
        Err(e) => Err(e),
    }
}

} // verus!
