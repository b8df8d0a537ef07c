//! The short notation of programs, read line by line. A line `name = M`
//! defines a name, any other line is an expression, and blank lines do not
//! count. `^x.M` is an abstraction, whose body goes on as far as it can; `λ`
//! and `\` stand for `^` as well. Expressions side by side are an
//! application, which takes its operands from the left; round brackets hold
//! one expression. A name is a run of identifier characters.

use vstd::prelude::*;
use crate::ast::Syntax;
use crate::lexer::{
    byte_place, byte_places, ident_char, ident_end, is_ident_char, scan_ident, text_between,
};
use crate::text::chars_of;
use crate::ubody::{Ast, UnprocessedBody};

verus! {

/// A line of a program as contracts see it: with the characters of its
/// names.
pub enum Line {
    Expr(Syntax),
    LetExpr(Seq<char>, Syntax),
}

/// The line that `a` holds.
pub open spec fn line_of(a: Ast) -> Line {
    match a {
        Ast::Expr(e) => Line::Expr(e.syntax()),
        Ast::LetExpr(name, e) => Line::LetExpr(name@, e.syntax()),
    }
}

/// The lines that `v` holds, in order.
pub open spec fn lines_of(v: Seq<Ast>) -> Seq<Line> {
    Seq::new(v.len(), |i: int| line_of(v[i]))
}

/// A sign of abstraction.
pub open spec fn is_lambda(c: char) -> bool {
    c == '^' || c == 'λ' || c == '\\'
}

/// Blank space inside a line.
pub open spec fn is_space(c: char) -> bool {
    c == ' ' || c == '\t' || c == '\r'
}

/// The first place from `i` on that holds no blank space.
pub open spec fn past_spaces(s: Seq<char>, i: int) -> int
    decreases s.len() - i,
{
    if 0 <= i < s.len() && is_space(s[i]) {
        past_spaces(s, i + 1)
    } else {
        i
    }
}

/// The first place from `i` on that holds neither blank space nor the end
/// of a line.
pub open spec fn past_breaks(s: Seq<char>, i: int) -> int
    decreases s.len() - i,
{
    if 0 <= i < s.len() && (is_space(s[i]) || s[i] == '\n') {
        past_breaks(s, i + 1)
    } else {
        i
    }
}

/// An operand starts at place `i`.
pub open spec fn starts_operand(s: Seq<char>, i: int) -> bool {
    0 <= i < s.len() && (s[i] == '(' || is_lambda(s[i]) || is_ident_char(s[i]))
}

/// What a rule makes of the text from a place on: a tree and the place
/// after it, or the place at which the rule fails.
pub type Read = Result<(Syntax, int), int>;

/// The operand that starts at place `i`.
///
/// - An opening bracket, an expression and a closing bracket are that
///   expression.
/// - A sign of abstraction, a name, a dot and an expression are the
///   abstraction of the name over the expression.
/// - A run of identifier characters is a name.
pub open spec fn operand(s: Seq<char>, i: int) -> Read
    decreases s.len() - i, 0nat,
{
    if !(0 <= i < s.len()) {
        Err(i)
    } else if s[i] == '(' {
        match expr(s, i + 1) {
            Ok((e, j)) => if 0 <= j < s.len() && s[j] == ')' {
                Ok((e, j + 1))
            } else {
                Err(j)
            },
            Err(k) => Err(k),
        }
    } else if is_lambda(s[i]) {
        let a = past_spaces(s, i + 1);
        let b = ident_end(s, a);
        let d = past_spaces(s, b);
        if a == b {
            Err(a)
        } else if !(i < d < s.len() && s[d] == '.') {
            Err(d)
        } else {
            match expr(s, d + 1) {
                Ok((m, j)) => Ok((Syntax::Abs(s.subrange(a, b), Box::new(m)), j)),
                Err(k) => Err(k),
            }
        }
    } else if is_ident_char(s[i]) {
        Ok((Syntax::Var(s.subrange(i, ident_end(s, i))), ident_end(s, i)))
    } else {
        Err(i)
    }
}

/// The application `acc`, which ends before place `i`, applied to the
/// operands that follow it, one after the other. The place given is that
/// of the first character, past blank space, that starts no operand.
pub open spec fn operands(s: Seq<char>, i: int, acc: Syntax) -> Read
    decreases s.len() - i, 1nat,
{
    let j = past_spaces(s, i);
    if i <= j && starts_operand(s, j) {
        match operand(s, j) {
            Ok((a, k)) => if j < k <= s.len() {
                operands(s, k, Syntax::App(Box::new(acc), Box::new(a)))
            } else {
                Err(j)
            },
            Err(k) => Err(k),
        }
    } else {
        Ok((acc, j))
    }
}

/// The expression that starts at or after place `i`: an operand, applied
/// to the operands that follow it, from left to right.
pub open spec fn expr(s: Seq<char>, i: int) -> Read
    decreases s.len() - i, 2nat,
{
    let j = past_spaces(s, i);
    if !(i <= j <= s.len()) {
        Err(i)
    } else {
        match operand(s, j) {
            Ok((a, k)) => if j < k <= s.len() {
                operands(s, k, a)
            } else {
                Err(j)
            },
            Err(k) => Err(k),
        }
    }
}

/// The line that starts at place `i`: a definition where a name and `=`
/// stand first, else an expression.
pub open spec fn line(s: Seq<char>, i: int) -> Result<(Line, int), int> {
    let b = ident_end(s, i);
    let d = past_spaces(s, b);
    if i < b && 0 <= d < s.len() && s[d] == '=' {
        match expr(s, d + 1) {
            Ok((m, j)) => Ok((Line::LetExpr(s.subrange(i, b), m), j)),
            Err(k) => Err(k),
        }
    } else {
        match expr(s, i) {
            Ok((m, j)) => Ok((Line::Expr(m), j)),
            Err(k) => Err(k),
        }
    }
}

/// The lines `acc` and those of the text from place `i` on. Each line ends
/// at the end of the text or of the line; the place of what stands there
/// instead is the error.
pub open spec fn program(s: Seq<char>, i: int, acc: Seq<Line>) -> Result<Seq<Line>, int>
    decreases s.len() - i,
{
    let j = past_breaks(s, i);
    if !(0 <= i <= j < s.len()) {
        Ok(acc)
    } else {
        match line(s, j) {
            Ok((l, k)) => if j < k <= s.len() && (k == s.len() || s[k] == '\n') {
                program(s, k, acc.push(l))
            } else {
                Err(k)
            },
            Err(k) => Err(k),
        }
    }
}

/// The lines of the text `s`.
pub open spec fn parsed(s: Seq<char>) -> Result<Seq<Line>, int> {
    program(s, 0, Seq::empty())
}

/// What was read is what the rule gives: the same tree and place, or the
/// same place of failure.
pub open spec fn is_read(
    r: Result<(Box<UnprocessedBody>, usize), usize>,
    p: Read,
    from: int,
    len: int,
) -> bool {
    match (p, r) {
        (Ok((t, j)), Ok((e, k))) => e.syntax() == t && k == j && from < j <= len,
        (Err(a), Err(b)) => b == a && from <= a <= len,
        _ => false,
    }
}

fn spaces_from(chars: &Vec<char>, i: usize) -> (j: usize)
    requires
        i <= chars.len(),
    ensures
        j == past_spaces(chars@, i as int),
        i <= j <= chars.len(),
{
    let mut j: usize = i;
    while j < chars.len() && (chars[j] == ' ' || chars[j] == '\t' || chars[j] == '\r')
        invariant
            i <= j <= chars.len(),
            past_spaces(chars@, i as int) == past_spaces(chars@, j as int),
        decreases chars.len() - j,
    {
        j = j + 1;
    }
    j
}

fn breaks_from(chars: &Vec<char>, i: usize) -> (j: usize)
    requires
        i <= chars.len(),
    ensures
        j == past_breaks(chars@, i as int),
        i <= j <= chars.len(),
{
    let mut j: usize = i;
    while j < chars.len() && (chars[j] == ' ' || chars[j] == '\t' || chars[j] == '\r' || chars[j]
        == '\n')
        invariant
            i <= j <= chars.len(),
            past_breaks(chars@, i as int) == past_breaks(chars@, j as int),
        decreases chars.len() - j,
    {
        j = j + 1;
    }
    j
}

/// Where the name that starts at place `i` ends: `i` itself where none
/// starts there.
fn name_from(chars: &Vec<char>, i: usize) -> (e: usize)
    requires
        i <= chars.len(),
    ensures
        e == ident_end(chars@, i as int),
        i <= e <= chars.len(),
{
    if i < chars.len() && ident_char(chars[i]) {
        scan_ident(chars, i)
    } else {
        i
    }
}

fn operand_at(chars: &Vec<char>, i: usize) -> (r: Result<(Box<UnprocessedBody>, usize), usize>)
    requires
        i <= chars.len(),
    ensures
        is_read(r, operand(chars@, i as int), i as int, chars.len() as int),
    decreases chars.len() - i, 0nat,
{
    if i >= chars.len() {
        return Err(i);
    }
    let c = chars[i];
    if c == '(' {
        match expr_at(chars, i + 1) {
            Ok((e, j)) => {
                if j < chars.len() && chars[j] == ')' {
                    Ok((e, j + 1))
                } else {
                    Err(j)
                }
            },
            Err(k) => Err(k),
        }
    } else if c == '^' || c == 'λ' || c == '\\' {
        let a = spaces_from(chars, i + 1);
        let b = name_from(chars, a);
        if a == b {
            return Err(a);
        }
        let d = spaces_from(chars, b);
        if !(d < chars.len() && chars[d] == '.') {
            return Err(d);
        }
        let name = text_between(chars, a, b);
        match expr_at(chars, d + 1) {
            Ok((m, j)) => Ok((Box::new(UnprocessedBody::Abs(name, m)), j)),
            Err(k) => Err(k),
        }
    } else if ident_char(c) {
        let e = scan_ident(chars, i);
        Ok((Box::new(UnprocessedBody::Var(text_between(chars, i, e))), e))
    } else {
        Err(i)
    }
}

/// Reads the expression that starts at or after place `i` of `chars`, and
/// returns it with the place of what follows it.
pub fn expr_at(chars: &Vec<char>, i: usize) -> (r: Result<(Box<UnprocessedBody>, usize), usize>)
    requires
        i <= chars.len(),
    ensures
        is_read(r, expr(chars@, i as int), i as int, chars.len() as int),
    decreases chars.len() - i, 2nat,
{
    let start = spaces_from(chars, i);
    let (first, after) = match operand_at(chars, start) {
        Ok(found) => found,
        Err(k) => {
            return Err(k);
        },
    };
    let mut acc = first;
    let mut k = after;
    loop
        invariant
            i <= start < k <= chars.len(),
            expr(chars@, i as int) == operands(chars@, k as int, acc.syntax()),
        decreases chars.len() - k,
    {
        let j = spaces_from(chars, k);
        let goes_on = j < chars.len() && (chars[j] == '(' || chars[j] == '^' || chars[j] == 'λ'
            || chars[j] == '\\' || ident_char(chars[j]));
        if !goes_on {
            return Ok((acc, j));
        }
        match operand_at(chars, j) {
            Ok((a, next)) => {
                acc = Box::new(UnprocessedBody::App(acc, a));
                k = next;
            },
            Err(e) => {
                return Err(e);
            },
        }
    }
}

/// Reads the line that starts at place `i`.
fn line_at(chars: &Vec<char>, i: usize) -> (r: Result<(Ast, usize), usize>)
    requires
        i <= chars.len(),
    ensures
        match (line(chars@, i as int), r) {
            (Ok((l, j)), Ok((a, k))) => line_of(a) == l && k == j && i < j <= chars.len(),
            (Err(a), Err(b)) => b == a && i <= a <= chars.len(),
            _ => false,
        },
{
    let b = name_from(chars, i);
    let d = spaces_from(chars, b);
    if i < b && d < chars.len() && chars[d] == '=' {
        let name = text_between(chars, i, b);
        match expr_at(chars, d + 1) {
            Ok((m, j)) => Ok((Ast::LetExpr(name, m), j)),
            Err(k) => Err(k),
        }
    } else {
        match expr_at(chars, i) {
            Ok((m, j)) => Ok((Ast::Expr(m), j)),
            Err(k) => Err(k),
        }
    }
}

/// The place at which a text is no program, counted in bytes.
#[derive(Debug, Clone, Copy, PartialEq, Eq)]
pub struct ParseError {
    pub at: usize,
}

/// The lines of a program, in order.
#[derive(Debug, PartialEq, Eq)]
pub struct Program {
    pub lines: Vec<Ast>,
}

impl Program {
    /// The lines.
    pub fn into_program(self) -> (r: Vec<Ast>)
        ensures
            r == self.lines,
    {
        self.lines
    }
}

/// The reader of programs in the short notation.
#[derive(Debug, Clone, Copy, PartialEq, Eq)]
pub struct ProgramParser {}

impl ProgramParser {
    /// A reader; it holds nothing, so that every one reads alike.
    pub fn new() -> (p: ProgramParser) {
        ProgramParser {  }
    }

    /// Reads the program `src`: its lines in order, or the place of the
    /// first character that fits no rule.
    pub fn parse(&self, src: &str) -> (r: Result<Program, ParseError>)
        ensures
            match parsed(src@) {
                Ok(lines) => r is Ok && lines_of(r->Ok_0.lines@) == lines,
                Err(k) => r == Err::<Program, ParseError>(
                    ParseError { at: byte_place(src@, k) as usize },
                ) && 0 <= k <= src@.len(),
            },
    {
        let chars = chars_of(src);
        let places = byte_places(src, &chars);
        let mut lines: Vec<Ast> = Vec::new();
        let mut i: usize = 0;
        assert(lines_of(lines@) =~= Seq::empty());
        loop
            invariant
                i <= chars.len(),
                chars@ == src@,
                places.len() == chars.len() + 1,
                forall|k: int| 0 <= k <= chars.len() ==> places[k] == byte_place(chars@, k),
                parsed(src@) == program(chars@, i as int, lines_of(lines@)),
            decreases chars.len() - i,
        {
            let j = breaks_from(&chars, i);
            if j >= chars.len() {
                return Ok(Program { lines });
            }
            match line_at(&chars, j) {
                Ok((l, k)) => {
                    if !(k == chars.len() || chars[k] == '\n') {
                        return Err(ParseError { at: places[k] });
                    }
                    proof {
                        assert(lines_of(lines@.push(l)) =~= lines_of(lines@).push(line_of(l)));
                    }
                    lines.push(l);
                    i = k;
                },
                Err(k) => {
                    return Err(ParseError { at: places[k] });
                },
            }
        }
    }
}

/// The reader of programs.
pub fn get_global_parser() -> (p: ProgramParser) {
    ProgramParser::new()
}

} // verus!
