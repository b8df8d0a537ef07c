//! The plain notation of terms, one character a name: `λx.M` is an
//! abstraction, whose body goes on as far as it can; terms side by side are
//! an application, which takes its operands from the left; round brackets
//! hold one term. Spaces do not count. The identifier of a variable is the
//! number of its character.

use vstd::prelude::*;
use crate::term::{Body, Term, VarId};
use crate::text::chars_of;

verus! {

/// What can be wrong with a term in plain notation.
#[derive(Debug, Clone, Copy, PartialEq, Eq, Structural)]
pub enum ParserBodyError {
    /// No dot stands after the variable of an abstraction.
    MissingDot,
    UnexpectedChar(char),
    /// The text ends where a term goes on.
    UnexpectedEof,
    /// Something other than a closing bracket stands after the term that
    /// follows an opening one.
    ParenUnclosed,
}

/// The result of parsing plain notation.
pub type Result<T> = core::result::Result<T, ParserBodyError>;

/// The text without its spaces.
pub open spec fn without_spaces(s: Seq<char>) -> Seq<char>
    decreases s.len(),
{
    if s.len() == 0 {
        Seq::empty()
    } else if s.last() == ' ' {
        without_spaces(s.drop_last())
    } else {
        without_spaces(s.drop_last()).push(s.last())
    }
}

/// The identifier of the variable that a character names.
pub open spec fn id_of(c: char) -> VarId {
    (c as u32) as usize
}

/// The node over `body`, with the flag that a new node gets.
pub open spec fn node(body: Body) -> Term {
    Term { body: Box::new(body), closed: Term::flag_over(body) }
}

/// The operand that starts at place `i` of the text `s`, and the place
/// after it.
///
/// - `λ`, a character, a dot and a term are the abstraction of the
///   character's variable over the term, which goes on as far as it can.
/// - An opening bracket, a term and a closing bracket are that term.
/// - Any other character is its variable.
pub open spec fn plain_atom(s: Seq<char>, i: int) -> Result<(Term, int)>
    decreases s.len() - i, 0nat,
{
    if !(0 <= i < s.len()) {
        Err(ParserBodyError::UnexpectedEof)
    } else if s[i] == 'λ' {
        if i + 2 >= s.len() {
            Err(ParserBodyError::UnexpectedEof)
        } else if s[i + 2] != '.' {
            Err(ParserBodyError::MissingDot)
        } else {
            match plain_from(s, i + 3) {
                Ok((b, j)) => Ok((node(Body::Abs(id_of(s[i + 1]), b)), j)),
                Err(e) => Err(e),
            }
        }
    } else if s[i] == '(' {
        match plain_from(s, i + 1) {
            Ok((v, j)) => if !(0 <= j < s.len()) {
                Err(ParserBodyError::UnexpectedEof)
            } else if s[j] != ')' {
                Err(ParserBodyError::ParenUnclosed)
            } else {
                Ok((v, j + 1))
            },
            Err(e) => Err(e),
        }
    } else {
        Ok((node(Body::Var(id_of(s[i]))), i + 1))
    }
}

/// The application `acc`, which ends before place `i`, applied to the
/// operands that follow it, one after the other, up to the end of the text
/// or a closing bracket.
pub open spec fn plain_rest(s: Seq<char>, i: int, acc: Term) -> Result<(Term, int)>
    decreases s.len() - i, 1nat,
{
    if 0 <= i < s.len() && s[i] != ')' {
        match plain_atom(s, i) {
            Ok((a, j)) => if i < j <= s.len() {
                plain_rest(s, j, node(Body::App(acc, a)))
            } else {
                Err(ParserBodyError::UnexpectedEof)
            },
            Err(e) => Err(e),
        }
    } else {
        Ok((acc, i))
    }
}

/// The term that starts at place `i` of the text `s`, and the place after
/// it: an operand, applied to the operands that follow it, from left to
/// right, so that `abc` is `a` applied to `b`, applied to `c`.
pub open spec fn plain_from(s: Seq<char>, i: int) -> Result<(Term, int)>
    decreases s.len() - i, 2nat,
{
    if !(0 <= i < s.len()) {
        Err(ParserBodyError::UnexpectedEof)
    } else {
        match plain_atom(s, i) {
            Ok((a, j)) => if i < j <= s.len() {
                plain_rest(s, j, a)
            } else {
                Err(ParserBodyError::UnexpectedEof)
            },
            Err(e) => Err(e),
        }
    }
}

/// What a rule may give: a term that ends at the end of the text or before
/// a closing bracket, or an error other than `ParenUnclosed`.
pub open spec fn ends_well(r: Result<(Term, int)>, s: Seq<char>) -> bool {
    match r {
        Ok((_, j)) => !(0 <= j < s.len()) || s[j] == ')',
        Err(e) => e != ParserBodyError::ParenUnclosed,
    }
}

/// A term goes on up to the end of the text or a closing bracket. So where
/// a bracket was opened and the text has not ended, the bracket is closed:
/// no text gives `ParenUnclosed`.
pub proof fn term_ends_at_bracket(s: Seq<char>, i: int)
    ensures
        ends_well(plain_from(s, i), s),
        plain_atom(s, i) is Err ==> plain_atom(s, i)->Err_0 != ParserBodyError::ParenUnclosed,
    decreases s.len() - i, 2nat,
{
    atom_ends_well(s, i);
    if 0 <= i < s.len() {
        match plain_atom(s, i) {
            Ok((a, j)) => {
                if i < j <= s.len() {
                    rest_ends_at_bracket(s, j, a);
                }
            },
            Err(_) => {},
        }
    }
}

proof fn atom_ends_well(s: Seq<char>, i: int)
    ensures
        plain_atom(s, i) is Err ==> plain_atom(s, i)->Err_0 != ParserBodyError::ParenUnclosed,
    decreases s.len() - i, 0nat,
{
    if 0 <= i < s.len() {
        if s[i] == 'λ' {
            if i + 2 < s.len() && s[i + 2] == '.' {
                term_ends_at_bracket(s, i + 3);
            }
        } else if s[i] == '(' {
            term_ends_at_bracket(s, i + 1);
        }
    }
}

proof fn rest_ends_at_bracket(s: Seq<char>, i: int, acc: Term)
    ensures
        ends_well(plain_rest(s, i, acc), s),
    decreases s.len() - i, 1nat,
{
    if 0 <= i < s.len() && s[i] != ')' {
        atom_ends_well(s, i);
        match plain_atom(s, i) {
            Ok((a, j)) => {
                if i < j <= s.len() {
                    rest_ends_at_bracket(s, j, node(Body::App(acc, a)));
                }
            },
            Err(_) => {},
        }
    }
}

/// The term that a text in plain notation starts with.
pub open spec fn plain_term(s: Seq<char>) -> Result<Term> {
    match plain_from(without_spaces(s), 0) {
        Ok((t, _)) => Ok(t),
        Err(e) => Err(e),
    }
}

/// An exec result is the result of a rule: the same term and place, or the
/// same error.
pub open spec fn is_plain(r: Result<(Term, usize)>, p: Result<(Term, int)>, from: int, len: int) -> bool {
    match p {
        Ok((t, j)) => r == Ok::<(Term, usize), ParserBodyError>((t, j as usize)) && from < j
            <= len && t.wf(),
        Err(e) => r == Err::<(Term, usize), ParserBodyError>(e),
    }
}

fn atom_at(chars: &Vec<char>, pos: usize) -> (r: Result<(Term, usize)>)
    ensures
        is_plain(r, plain_atom(chars@, pos as int), pos as int, chars.len() as int),
    decreases chars.len() - pos, 0nat,
{
    if pos >= chars.len() {
        return Err(ParserBodyError::UnexpectedEof);
    }
    let c = chars[pos];
    if c == 'λ' {
        if chars.len() < 3 || pos >= chars.len() - 2 {
            return Err(ParserBodyError::UnexpectedEof);
        }
        if chars[pos + 2] != '.' {
            return Err(ParserBodyError::MissingDot);
        }
        let ident = chars[pos + 1];
        match try_from_iter(chars, pos + 3) {
            Ok((b, j)) => Ok((Term::new(Body::Abs((ident as u32) as usize, b)), j)),
            Err(e) => Err(e),
        }
    } else if c == '(' {
        match try_from_iter(chars, pos + 1) {
            Ok((v, j)) => {
                if j >= chars.len() {
                    Err(ParserBodyError::UnexpectedEof)
                } else if chars[j] != ')' {
                    Err(ParserBodyError::ParenUnclosed)
                } else {
                    Ok((v, j + 1))
                }
            },
            Err(e) => Err(e),
        }
    } else {
        Ok((Term::new(Body::Var((c as u32) as usize)), pos + 1))
    }
}

/// Parses the term that starts at place `pos` of `chars`, and returns it
/// with the place after it. Application takes its operands from the left.
/// The term ends at the end of the text or before a closing bracket that
/// closes none of its own.
pub fn try_from_iter(chars: &Vec<char>, pos: usize) -> (r: Result<(Term, usize)>)
    ensures
        is_plain(r, plain_from(chars@, pos as int), pos as int, chars.len() as int),
    decreases chars.len() - pos, 2nat,
{
    if pos >= chars.len() {
        return Err(ParserBodyError::UnexpectedEof);
    }
    let (first, start) = match atom_at(chars, pos) {
        Ok(found) => found,
        Err(e) => {
            return Err(e);
        },
    };
    let mut acc = first;
    let mut j = start;
    while j < chars.len() && chars[j] != ')'
        invariant
            pos < j <= chars.len(),
            acc.wf(),
            plain_from(chars@, pos as int) == plain_rest(chars@, j as int, acc),
        decreases chars.len() - j,
    {
        match atom_at(chars, j) {
            Ok((a, next)) => {
                acc = Term::new(Body::App(acc, a));
                j = next;
            },
            Err(e) => {
                return Err(e);
            },
        }
    }
    Ok((acc, j))
}

/// Parses a term in plain notation. What follows the term in the text is
/// not read.
pub fn try_from_str(s: &str) -> (r: Result<Term>)
    ensures
        r == plain_term(s@),
        r is Ok ==> r->Ok_0.wf(),
{
    let all = chars_of(s);
    let mut chars: Vec<char> = Vec::new();
    let mut i: usize = 0;
    assert(all@.take(0) =~= Seq::empty());
    while i < all.len()
        invariant
            i <= all.len(),
            chars@ == without_spaces(all@.take(i as int)),
        decreases all.len() - i,
    {
        proof {
            assert(all@.take(i + 1).drop_last() =~= all@.take(i as int));
            assert(all@.take(i + 1).last() == all[i as int]);
        }
        if all[i] != ' ' {
            chars.push(all[i]);
        }
        i = i + 1;
    }
    assert(all@.take(all.len() as int) =~= all@);
    match try_from_iter(&chars, 0) {
        Ok((t, _)) => Ok(t),
        Err(e) => Err(e),
    }
}

impl core::str::FromStr for Term {
    type Err = ParserBodyError;

    /// Parses a term in plain notation, as `try_from_str` does.
    fn from_str(s: &str) -> (r: core::result::Result<Term, ParserBodyError>)
        ensures
            r == plain_term(s@),
            r is Ok ==> r->Ok_0.wf(),
    {
        try_from_str(s)
    }
}

} // verus!
