//! From tokens to a syntax tree.
//!
//! ```text
//! Program ::= Atom*
//! Atom    ::= Assign | Use | Expr
//! Assign  ::= Ident '=' Expr
//! Use     ::= 'use' Path
//! Expr    ::= Expr Atom1 | Atom1
//! Atom1   ::= '(' Expr ')' | Abs | Let | Ident
//! Abs     ::= 'λ' Ident '.' Expr
//! Let     ::= 'let' Assign (',' Assign)* 'in' Expr
//! ```
//!
//! An application takes as many operands as follow; an identifier before
//! `=` starts a definition and is no operand.

use vstd::prelude::*;
use crate::ast::{Ast, Syntax};
use crate::error::Error;
use crate::token::{spanned_view, tokens_view, ParserToken, Token, TokenView};

verus! {

/// What a rule makes of the tokens from a place on: a tree and the place
/// after it, or the place of the token at which the rule fails.
pub type Parsed = core::result::Result<(Syntax, int), int>;

/// The token at place `i` is an identifier that starts a definition.
pub open spec fn starts_assign(ts: Seq<(int, TokenView, int)>, i: int) -> bool {
    0 <= i && i + 1 < ts.len() && ts[i].1 is Ident && ts[i + 1].1 == TokenView::Assign
}

/// The token at place `i` starts an operand.
pub open spec fn starts_atom1(ts: Seq<(int, TokenView, int)>, i: int) -> bool {
    0 <= i < ts.len() && match ts[i].1 {
        TokenView::OpenParen => true,
        TokenView::Lambda => true,
        TokenView::LetKw => true,
        TokenView::Ident(_) => !starts_assign(ts, i),
        _ => false,
    }
}

/// The rule `Atom1` at place `i`.
pub open spec fn parse_atom1(ts: Seq<(int, TokenView, int)>, i: int) -> Parsed
    decreases ts.len() - i, 0nat,
{
    if !(0 <= i < ts.len()) {
        Err(i)
    } else {
        match ts[i].1 {
            TokenView::OpenParen => match parse_expr(ts, i + 1) {
                Ok((e, j)) => if 0 <= j < ts.len() && ts[j].1 == TokenView::CloseParen {
                    Ok((e, j + 1))
                } else {
                    Err(j)
                },
                Err(k) => Err(k),
            },
            TokenView::Lambda => if !(i + 1 < ts.len() && ts[i + 1].1 is Ident) {
                Err(i + 1)
            } else if !(i + 2 < ts.len() && ts[i + 2].1 == TokenView::Dot) {
                Err(i + 2)
            } else {
                match parse_expr(ts, i + 3) {
                    Ok((b, j)) => Ok((Syntax::Abs(ts[i + 1].1->Ident_0, Box::new(b)), j)),
                    Err(k) => Err(k),
                }
            },
            TokenView::LetKw => parse_let(ts, i + 1),
            TokenView::Ident(name) => Ok((Syntax::Var(name), i + 1)),
            _ => Err(i),
        }
    }
}

/// The operands that follow an application `acc` that ends before place `i`.
pub open spec fn parse_app_rest(ts: Seq<(int, TokenView, int)>, i: int, acc: Syntax) -> Parsed
    decreases ts.len() - i, 1nat,
{
    if starts_atom1(ts, i) {
        match parse_atom1(ts, i) {
            Ok((a, j)) => if i < j <= ts.len() {
                parse_app_rest(ts, j, Syntax::App(Box::new(acc), Box::new(a)))
            } else {
                Err(i)
            },
            Err(k) => Err(k),
        }
    } else {
        Ok((acc, i))
    }
}

/// The rule `Expr` at place `i`: an operand, applied to all the operands
/// that follow it, from left to right.
pub open spec fn parse_expr(ts: Seq<(int, TokenView, int)>, i: int) -> Parsed
    decreases ts.len() - i, 2nat,
{
    if !(0 <= i < ts.len()) {
        Err(i)
    } else {
        match parse_atom1(ts, i) {
            Ok((a, j)) => if i < j <= ts.len() {
                parse_app_rest(ts, j, a)
            } else {
                Err(i)
            },
            Err(k) => Err(k),
        }
    }
}

/// The rule `Assign` at place `i`.
pub open spec fn parse_assign(ts: Seq<(int, TokenView, int)>, i: int) -> Parsed
    decreases ts.len() - i, 3nat,
{
    if !(0 <= i < ts.len() && ts[i].1 is Ident) {
        Err(i)
    } else if !(i + 1 < ts.len() && ts[i + 1].1 == TokenView::Assign) {
        Err(i + 1)
    } else {
        match parse_expr(ts, i + 2) {
            Ok((e, j)) => Ok((Syntax::Assign(ts[i].1->Ident_0, Box::new(e)), j)),
            Err(k) => Err(k),
        }
    }
}

/// The definitions of a `let` from place `i` on, after those of `acc`: one
/// definition, and one more after each comma.
pub open spec fn parse_let_defs(
    ts: Seq<(int, TokenView, int)>,
    i: int,
    acc: Seq<Syntax>,
) -> core::result::Result<(Seq<Syntax>, int), int>
    decreases ts.len() - i, 4nat,
{
    match parse_assign(ts, i) {
        Ok((a, j)) => if i < j < ts.len() && ts[j].1 == TokenView::Comma {
            parse_let_defs(ts, j + 1, acc.push(a))
        } else {
            Ok((acc.push(a), j))
        },
        Err(k) => Err(k),
    }
}

/// The rule `Let` after its keyword, at place `i`.
pub open spec fn parse_let(ts: Seq<(int, TokenView, int)>, i: int) -> Parsed
    decreases ts.len() - i, 5nat,
{
    match parse_let_defs(ts, i, Seq::empty()) {
        Ok((defs, j)) => if !(i <= j < ts.len() && ts[j].1 == TokenView::InKw) {
            Err(j)
        } else {
            match parse_expr(ts, j + 1) {
                Ok((b, k)) => Ok((Syntax::Let(defs, Box::new(b)), k)),
                Err(k) => Err(k),
            }
        },
        Err(k) => Err(k),
    }
}

/// The rule `Atom` at place `i`.
pub open spec fn parse_atom(ts: Seq<(int, TokenView, int)>, i: int) -> Parsed {
    if !(0 <= i < ts.len()) {
        Err(i)
    } else if ts[i].1 == TokenView::UseKw {
        if i + 1 < ts.len() && ts[i + 1].1 is Path {
            Ok((Syntax::Use(ts[i + 1].1->Path_0), i + 2))
        } else {
            Err(i + 1)
        }
    } else if starts_assign(ts, i) {
        parse_assign(ts, i)
    } else {
        parse_expr(ts, i)
    }
}

/// The atoms of a program from place `i` on, after those of `acc`.
pub open spec fn parse_atoms(ts: Seq<(int, TokenView, int)>, i: int, acc: Seq<Syntax>) -> Parsed
    decreases ts.len() - i,
{
    if !(0 <= i < ts.len()) {
        Ok((Syntax::Program(acc), i))
    } else {
        match parse_atom(ts, i) {
            Ok((a, j)) => if i < j <= ts.len() {
                parse_atoms(ts, j, acc.push(a))
            } else {
                Err(i)
            },
            Err(k) => Err(k),
        }
    }
}

/// The program that the tokens spell, or the place of the token at which
/// they stop being one.
pub open spec fn program_of(ts: Seq<(int, TokenView, int)>) -> core::result::Result<Syntax, int> {
    match parse_atoms(ts, 0, Seq::empty()) {
        Ok((p, _)) => Ok(p),
        Err(k) => Err(k),
    }
}

/// The expression that all the tokens together spell, or the place of the
/// token at which they stop being one.
pub open spec fn expr_of(ts: Seq<(int, TokenView, int)>) -> core::result::Result<Syntax, int> {
    match parse_expr(ts, 0) {
        Ok((e, j)) => if j == ts.len() {
            Ok(e)
        } else {
            Err(j)
        },
        Err(k) => Err(k),
    }
}

/// Where in the source the token at place `k` starts; past the last token,
/// where that one ends.
pub open spec fn source_place(ts: Seq<(int, TokenView, int)>, k: int) -> int {
    if 0 <= k < ts.len() {
        ts[k].0
    } else if ts.len() > 0 {
        ts.last().2
    } else {
        0
    }
}

/// An exec result matches a result of the rules: the same place, and a tree
/// with the same view.
pub open spec fn matches_parsed(
    r: core::result::Result<(Ast, usize), usize>,
    p: Parsed,
    from: int,
    len: int,
) -> bool {
    match p {
        Ok((syn, j)) => r is Ok && r->Ok_0.0@ == syn && r->Ok_0.1 == j && from < j <= len,
        Err(k) => r is Err && r->Err_0 == k,
    }
}

fn is_ident(tokens: &Vec<ParserToken>, i: usize) -> (r: bool)
    ensures
        r == (i < tokens.len() && tokens_view(tokens@)[i as int].1 is Ident),
{
    i < tokens.len() && match &tokens[i].1 {
        Token::Ident(_) => true,
        _ => false,
    }
}

fn is_assign(tokens: &Vec<ParserToken>, i: usize) -> (r: bool)
    ensures
        r == (i < tokens.len() && tokens_view(tokens@)[i as int].1 == TokenView::Assign),
{
    i < tokens.len() && match &tokens[i].1 {
        Token::Assign => true,
        _ => false,
    }
}

fn looks_like_assign(tokens: &Vec<ParserToken>, i: usize) -> (r: bool)
    requires
        i < tokens.len(),
    ensures
        r == starts_assign(tokens_view(tokens@), i as int),
{
    is_ident(tokens, i) && is_assign(tokens, i + 1)
}

fn looks_like_atom1(tokens: &Vec<ParserToken>, i: usize) -> (r: bool)
    ensures
        r == starts_atom1(tokens_view(tokens@), i as int),
{
    i < tokens.len() && match &tokens[i].1 {
        Token::OpenParen => true,
        Token::Lambda => true,
        Token::LetKw => true,
        Token::Ident(_) => !looks_like_assign(tokens, i),
        _ => false,
    }
}

fn atom1_at(tokens: &Vec<ParserToken>, i: usize) -> (r: core::result::Result<(Ast, usize), usize>)
    ensures
        matches_parsed(r, parse_atom1(tokens_view(tokens@), i as int), i as int, tokens.len() as int),
    decreases tokens.len() - i, 0nat,
{
    let ghost ts = tokens_view(tokens@);
    if i >= tokens.len() {
        return Err(i);
    }
    match &tokens[i].1 {
        Token::OpenParen => match expr_at(tokens, i + 1) {
            Ok((e, j)) => {
                let closes = j < tokens.len() && match &tokens[j].1 {
                    Token::CloseParen => true,
                    _ => false,
                };
                if closes {
                    Ok((e, j + 1))
                } else {
                    Err(j)
                }
            },
            Err(k) => Err(k),
        },
        Token::Lambda => {
            if !is_ident(tokens, i + 1) {
                return Err(i + 1);
            }
            let dot = i + 2 < tokens.len() && match &tokens[i + 2].1 {
                Token::Dot => true,
                _ => false,
            };
            if !dot {
                return Err(i + 2);
            }
            let name = match &tokens[i + 1].1 {
                Token::Ident(name) => name.clone(),
                _ => String::new(),
            };
            match expr_at(tokens, i + 3) {
                Ok((b, j)) => Ok((Ast::Abs(name, Box::new(b)), j)),
                Err(k) => Err(k),
            }
        },
        Token::LetKw => let_at(tokens, i + 1),
        Token::Ident(name) => Ok((Ast::Var(name.clone()), i + 1)),
        _ => Err(i),
    }
}

fn expr_at(tokens: &Vec<ParserToken>, i: usize) -> (r: core::result::Result<(Ast, usize), usize>)
    ensures
        matches_parsed(r, parse_expr(tokens_view(tokens@), i as int), i as int, tokens.len() as int),
    decreases tokens.len() - i, 2nat,
{
    let ghost ts = tokens_view(tokens@);
    if i >= tokens.len() {
        return Err(i);
    }
    let (first, start) = match atom1_at(tokens, i) {
        Ok(found) => found,
        Err(k) => {
            return Err(k);
        },
    };
    let mut acc = first;
    let mut j = start;
    while looks_like_atom1(tokens, j)
        invariant
            ts == tokens_view(tokens@),
            i < j <= tokens.len(),
            parse_expr(ts, i as int) == parse_app_rest(ts, j as int, acc@),
        decreases tokens.len() - j,
    {
        match atom1_at(tokens, j) {
            Ok((a, next)) => {
                acc = Ast::App(Box::new(acc), Box::new(a));
                j = next;
            },
            Err(k) => {
                return Err(k);
            },
        }
    }
    Ok((acc, j))
}

fn assign_at(tokens: &Vec<ParserToken>, i: usize) -> (r: core::result::Result<(Ast, usize), usize>)
    ensures
        matches_parsed(
            r,
            parse_assign(tokens_view(tokens@), i as int),
            i as int,
            tokens.len() as int,
        ),
    decreases tokens.len() - i, 3nat,
{
    if !is_ident(tokens, i) {
        return Err(i);
    }
    if !is_assign(tokens, i + 1) {
        return Err(i + 1);
    }
    let name = match &tokens[i].1 {
        Token::Ident(name) => name.clone(),
        _ => String::new(),
    };
    match expr_at(tokens, i + 2) {
        Ok((e, j)) => Ok((Ast::Assign(name, Box::new(e)), j)),
        Err(k) => Err(k),
    }
}

/// The views of the trees of `defs`.
pub open spec fn views_of(defs: Seq<Ast>) -> Seq<Syntax> {
    Seq::new(defs.len(), |i: int| defs[i]@)
}

fn let_at(tokens: &Vec<ParserToken>, i: usize) -> (r: core::result::Result<(Ast, usize), usize>)
    requires
        i <= tokens.len(),
    ensures
        matches_parsed(r, parse_let(tokens_view(tokens@), i as int), i as int, tokens.len() as int),
    decreases tokens.len() - i, 5nat,
{
    let ghost ts = tokens_view(tokens@);
    let mut defs: Vec<Ast> = Vec::new();
    let mut j = i;
    assert(views_of(defs@) =~= Seq::empty());
    loop
        invariant_except_break
            parse_let_defs(ts, i as int, Seq::empty()) == parse_let_defs(
                ts,
                j as int,
                views_of(defs@),
            ),
        invariant
            ts == tokens_view(tokens@),
            i <= j <= tokens.len(),
        ensures
            i < j <= tokens.len(),
            parse_let_defs(ts, i as int, Seq::empty()) == Ok::<(Seq<Syntax>, int), int>(
                (views_of(defs@), j as int),
            ),
        decreases tokens.len() - j,
    {
        match assign_at(tokens, j) {
            Ok((a, next)) => {
                proof {
                    assert(views_of(defs@.push(a)) =~= views_of(defs@).push(a@));
                }
                defs.push(a);
                let comma = next < tokens.len() && match &tokens[next].1 {
                    Token::Comma => true,
                    _ => false,
                };
                if comma {
                    j = next + 1;
                } else {
                    j = next;
                    break ;
                }
            },
            Err(k) => {
                return Err(k);
            },
        }
    }
    let has_in = j < tokens.len() && match &tokens[j].1 {
        Token::InKw => true,
        _ => false,
    };
    if !has_in {
        return Err(j);
    }
    match expr_at(tokens, j + 1) {
        Ok((b, k)) => {
            let ghost shown = views_of(defs@);
            let ast = Ast::Let(defs, Box::new(b));
            proof {
                assert(ast@->Let_0 =~= shown);
            }
            Ok((ast, k))
        },
        Err(k) => Err(k),
    }
}

fn atom_at(tokens: &Vec<ParserToken>, i: usize) -> (r: core::result::Result<(Ast, usize), usize>)
    ensures
        matches_parsed(r, parse_atom(tokens_view(tokens@), i as int), i as int, tokens.len() as int),
{
    if i >= tokens.len() {
        return Err(i);
    }
    let is_use = match &tokens[i].1 {
        Token::UseKw => true,
        _ => false,
    };
    if is_use {
        if i + 1 < tokens.len() {
            match &tokens[i + 1].1 {
                Token::Path(p) => {
                    return Ok((Ast::Use(p.clone()), i + 2));
                },
                _ => {},
            }
        }
        return Err(i + 1);
    }
    if looks_like_assign(tokens, i) {
        assign_at(tokens, i)
    } else {
        expr_at(tokens, i)
    }
}

/// The place in the source that an error at token `k` is reported at.
fn place_of(tokens: &Vec<ParserToken>, k: usize) -> (p: usize)
    ensures
        p == source_place(tokens_view(tokens@), k as int),
{
    if k < tokens.len() {
        tokens[k].0
    } else if tokens.len() > 0 {
        tokens[tokens.len() - 1].2
    } else {
        0
    }
}

/// Parses a program: a sequence of definitions, `use` directives and
/// expressions. The tokens are those that the former wrote. The error holds
/// the place in the source of the token at which the tokens stop being a
/// program.
pub fn parse_program(tokens: &Vec<ParserToken>) -> (r: Result<Ast, Error>)
    ensures
        match program_of(tokens_view(tokens@)) {
            Ok(p) => r is Ok && r->Ok_0@ == p,
            Err(k) => r is Err && r->Err_0 == Error::ParserError(
                source_place(tokens_view(tokens@), k) as usize,
            ),
        },
{
    let ghost ts = tokens_view(tokens@);
    let mut atoms: Vec<Ast> = Vec::new();
    let mut i: usize = 0;
    assert(views_of(atoms@) =~= Seq::empty());
    while i < tokens.len()
        invariant
            ts == tokens_view(tokens@),
            i <= tokens.len(),
            parse_atoms(ts, 0, Seq::empty()) == parse_atoms(ts, i as int, views_of(atoms@)),
        decreases tokens.len() - i,
    {
        match atom_at(tokens, i) {
            Ok((a, next)) => {
                proof {
                    assert(views_of(atoms@.push(a)) =~= views_of(atoms@).push(a@));
                }
                atoms.push(a);
                i = next;
            },
            Err(k) => {
                return Err(Error::ParserError(place_of(tokens, k)));
            },
        }
    }
    let ghost shown = views_of(atoms@);
    let ast = Ast::Program(atoms);
    proof {
        assert(ast@->Program_0 =~= shown);
    }
    Ok(ast)
}

/// Parses one expression that takes up all the tokens. The error holds the
/// place in the source of the token at which the tokens stop being one.
pub fn parse_expr_only(tokens: &Vec<ParserToken>) -> (r: Result<Ast, Error>)
    ensures
        match expr_of(tokens_view(tokens@)) {
            Ok(e) => r is Ok && r->Ok_0@ == e,
            Err(k) => r is Err && r->Err_0 == Error::ParserError(
                source_place(tokens_view(tokens@), k) as usize,
            ),
        },
{
    match expr_at(tokens, 0) {
        Ok((e, j)) => {
            if j == tokens.len() {
                Ok(e)
            } else {
                Err(Error::ParserError(place_of(tokens, j)))
            }
        },
        Err(k) => Err(Error::ParserError(place_of(tokens, k))),
    }
}

} // verus!
