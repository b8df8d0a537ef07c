//! A unit of code: a table of definitions, and the way from source text to
//! definitions and terms.

use vstd::prelude::*;
use crate::ast::{Ast, Syntax};
use crate::compiler::Compiler;
use crate::denote::{
    binders, denote, find, index_bound, larger, stored, stored_nodes, Fault, Scope,
};
use crate::error::Error;
use crate::former::{form, formed};
use crate::lexer::{lex, tokenize};
use crate::nameless::Nameless;
use crate::parser::{expr_of, parse_expr_only, parse_program, program_of, source_place};
use crate::term::Term;
use crate::token::{tokens_view, ParserToken, TokenView};

verus! {

/// A table of definitions that programs are evaluated into.
pub struct CodeUnit {
    pub scope: Compiler,
}

/// What the evaluation of a program needs of its caller before it goes on.
#[derive(Debug)]
pub enum Outcome {
    /// Nothing: the program has been evaluated to its end.
    Done,
    /// The program of the file at this path, evaluated into the same
    /// table.
    Include(String),
    /// This term, the value of an expression of the program, taken.
    Value(Term),
}

/// What an evaluation asks for, as contracts see it.
pub enum Event {
    Done,
    Include(Seq<char>),
    Value(Nameless),
}

/// Where an evaluation stands when it hands over to its caller.
pub struct Progress {
    /// The definitions made.
    pub scope: Scope,
    /// The next identifier to give to a bound variable.
    pub next: nat,
    /// What is asked of the caller.
    pub event: Event,
    /// The place of the atom to go on with.
    pub resume: int,
}

/// Why an evaluation fails.
pub enum Failure {
    /// A name is neither bound, nor defined, nor the name of an identifier.
    NotFound(Seq<char>),
    /// A name is defined a second time.
    AlreadyDefined(Seq<char>),
    /// An identifier or a term is too large for the machine.
    OutOfRange,
}

/// The atoms of a program; a tree that is no program is the only atom of
/// one.
pub open spec fn atoms_of(ast: Syntax) -> Seq<Syntax> {
    match ast {
        Syntax::Program(atoms) => atoms,
        _ => seq![ast],
    }
}

/// The term of an expression and the next identifier after its
/// compiling, under the definitions `scope` and with `next` the next
/// identifier before it.
pub open spec fn compiled(expr: Syntax, scope: Scope, next: nat) -> core::result::Result<
    (Nameless, nat),
    Failure,
> {
    let after = larger(next, index_bound(expr)) + binders(expr);
    if after > usize::MAX {
        Err(Failure::OutOfRange)
    } else {
        match denote(expr, scope) {
            Ok(form) => Ok((form, after)),
            Err(Fault::NotFound(x)) => Err(Failure::NotFound(x)),
            Err(Fault::TooLarge) => Err(Failure::OutOfRange),
        }
    }
}

/// The evaluation of the atoms from place `i` on: definitions are made one
/// after the other, up to the first atom that is none. A `use` asks for the
/// file it names; an expression is compiled and its term handed over.
/// With a failure come the definitions made before it.
pub open spec fn eval_from(atoms: Seq<Syntax>, i: int, scope: Scope, next: nat) -> core::result::Result<
    Progress,
    (Failure, Scope),
>
    decreases atoms.len() - i,
{
    if !(0 <= i < atoms.len()) {
        Ok(Progress { scope, next, event: Event::Done, resume: i })
    } else {
        match atoms[i] {
            Syntax::Use(path) => Ok(
                Progress { scope, next, event: Event::Include(path), resume: i + 1 },
            ),
            Syntax::Assign(name, rhs) => match compiled(*rhs, scope, next) {
                Ok((form, after)) => if find(scope, name) is Some {
                    Err((Failure::AlreadyDefined(name), scope))
                } else if stored_nodes(name, form) > usize::MAX {
                    Err((Failure::OutOfRange, scope))
                } else {
                    eval_from(atoms, i + 1, scope.push((name, stored(name, form))), after)
                },
                Err(e) => Err((e, scope)),
            },
            expr => match compiled(expr, scope, next) {
                Ok((form, after)) => Ok(
                    Progress { scope, next: after, event: Event::Value(form), resume: i + 1 },
                ),
                Err(e) => Err((e, scope)),
            },
        }
    }
}

/// An outcome of an evaluation is the event of its model.
pub open spec fn outcome_is(outcome: Outcome, event: Event) -> bool {
    match event {
        Event::Done => outcome is Done,
        Event::Include(path) => outcome is Include && outcome->Include_0@ == path,
        Event::Value(form) => outcome is Value && outcome->Value_0@ == form
            && outcome->Value_0.wf(),
    }
}

/// An error of an evaluation is the failure of its model.
pub open spec fn error_is(error: Error, failure: Failure) -> bool {
    match failure {
        Failure::NotFound(x) => error is DefNotFound && error->DefNotFound_0@ == x,
        Failure::AlreadyDefined(x) => error is AlreadyDefined && error->AlreadyDefined_0@ == x,
        Failure::OutOfRange => error is OutOfRange,
    }
}

/// The tokens of a source text, formed: the lexer's tokens with the implied
/// groups written out as brackets.
pub open spec fn formed_tokens(src: Seq<char>) -> core::result::Result<
    Seq<(int, TokenView, int)>,
    int,
> {
    match lex(src) {
        Ok(tokens) => Ok(formed(tokens)),
        Err(p) => Err(p),
    }
}

impl CodeUnit {
    /// A unit without definitions.
    pub fn new() -> (cu: CodeUnit)
        ensures
            cu.scope.wf(),
            cu.scope@ == Seq::<(Seq<char>, Nameless)>::empty(),
    {
        CodeUnit { scope: Compiler::new() }
    }

    /// The tokens of a source text, as the lexer finds them.
    pub fn into_raw_tokens(src: &str) -> (r: Result<Vec<ParserToken>, Error>)
        ensures
            match lex(src@) {
                Ok(tokens) => r is Ok && tokens_view(r->Ok_0@) == tokens,
                Err(p) => r is Err && r->Err_0 == Error::LexerError(p as usize),
            },
    {
        tokenize(src)
    }

    /// The tokens of a source text, formed for the parser.
    pub fn into_tokens(src: &str) -> (r: Result<Vec<ParserToken>, Error>)
        ensures
            match formed_tokens(src@) {
                Ok(tokens) => r is Ok && tokens_view(r->Ok_0@) == tokens,
                Err(p) => r is Err && r->Err_0 == Error::LexerError(p as usize),
            },
    {
        match tokenize(src) {
            Ok(tokens) => Ok(form(tokens)),
            Err(e) => Err(e),
        }
    }

    /// The program that a source text spells.
    pub fn parse(src: &str) -> (r: Result<Ast, Error>)
        ensures
            match formed_tokens(src@) {
                Ok(tokens) => match program_of(tokens) {
                    Ok(p) => r is Ok && r->Ok_0@ == p,
                    Err(k) => r is Err && r->Err_0 == Error::ParserError(
                        source_place(tokens, k) as usize,
                    ),
                },
                Err(p) => r is Err && r->Err_0 == Error::LexerError(p as usize),
            },
    {
        match CodeUnit::into_tokens(src) {
            Ok(tokens) => parse_program(&tokens),
            Err(e) => Err(e),
        }
    }

    /// The expression that a source text spells.
    pub fn parse_expr(src: &str) -> (r: Result<Ast, Error>)
        ensures
            match formed_tokens(src@) {
                Ok(tokens) => match expr_of(tokens) {
                    Ok(e) => r is Ok && r->Ok_0@ == e,
                    Err(k) => r is Err && r->Err_0 == Error::ParserError(
                        source_place(tokens, k) as usize,
                    ),
                },
                Err(p) => r is Err && r->Err_0 == Error::LexerError(p as usize),
            },
    {
        match CodeUnit::into_tokens(src) {
            Ok(tokens) => parse_expr_only(&tokens),
            Err(e) => Err(e),
        }
    }

    /// Evaluates the atoms of `program` from place `from` on, up to the
    /// first that needs the caller: each definition is compiled and put on
    /// the table; a `use` hands over the path of its file, and an expression
    /// its term. With the outcome comes the place to go on from. A
    /// definition of a name that is defined already ends the evaluation with
    /// an error; the definitions made before it stay.
    pub fn eval(&mut self, program: &Ast, from: usize) -> (r: Result<(Outcome, usize), Error>)
        requires
            old(self).scope.wf(),
        ensures
            final(self).scope.wf(),
            match eval_from(
                atoms_of(program@),
                from as int,
                old(self).scope@,
                old(self).scope.next as nat,
            ) {
                Ok(progress) => {
                    &&& r is Ok
                    &&& outcome_is(r->Ok_0.0, progress.event)
                    &&& r->Ok_0.1 == progress.resume
                    &&& final(self).scope@ == progress.scope
                    &&& final(self).scope.next == progress.next
                },
                Err(failure) => {
                    &&& r is Err
                    &&& error_is(r->Err_0, failure.0)
                    &&& final(self).scope@ == failure.1
                },
            },
    {
        let ghost atoms = atoms_of(program@);
        let mut i = from;
        loop
            invariant
                self.scope.wf(),
                atoms == atoms_of(program@),
                eval_from(atoms, from as int, old(self).scope@, old(self).scope.next as nat)
                    == eval_from(atoms, i as int, self.scope@, self.scope.next as nat),
            decreases atoms.len() - i,
        {
            let atom: &Ast = match program {
                Ast::Program(list) => {
                    proof {
                        assert(atoms.len() == list@.len());
                    }
                    if i >= list.len() {
                        return Ok((Outcome::Done, i));
                    }
                    proof {
                        assert(atoms[i as int] == list@[i as int]@);
                    }
                    &list[i]
                },
                single => {
                    if i >= 1 {
                        return Ok((Outcome::Done, i));
                    }
                    single
                },
            };
            assert(atoms[i as int] == atom@);
            match atom {
                Ast::Use(path) => {
                    return Ok((Outcome::Include(path.clone()), i + 1));
                },
                Ast::Assign(name, rhs) => {
                    let term = match self.scope.dump(rhs) {
                        Ok(term) => term,
                        Err(e) => {
                            return Err(e);
                        },
                    };
                    match self.scope.insert(name.clone(), term) {
                        Ok(()) => {},
                        Err(e) => {
                            return Err(e);
                        },
                    }
                    i = i + 1;
                },
                expr => {
                    return match self.scope.dump(expr) {
                        Ok(term) => Ok((Outcome::Value(term), i + 1)),
                        Err(e) => Err(e),
                    };
                },
            }
        }
    }
}

} // verus!
