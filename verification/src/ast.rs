//! The syntax tree that the parser builds.

use vstd::prelude::*;

verus! {

/// An operator between two expressions.
#[derive(Debug, Clone, Copy, PartialEq, Eq, Structural)]
pub enum Op {
    Access,
}

/// A node of the syntax tree.
#[derive(Debug, PartialEq, Eq)]
pub enum Ast {
    /// A sequence of definitions, directives and expressions.
    Program(Vec<Ast>),
    /// `name = expression`.
    Assign(String, Box<Ast>),
    /// `let` with its definitions, each an `Assign`, and its body.
    Let(Vec<Ast>, Box<Ast>),
    /// `use` with the path of a file.
    Use(String),
    /// Two expressions with an operator between them.
    BinOp(Box<Ast>, Op, Box<Ast>),
    /// An application.
    App(Box<Ast>, Box<Ast>),
    /// An abstraction, with the name of its variable.
    Abs(String, Box<Ast>),
    /// A name.
    Var(String),
}

/// A syntax tree as contracts see it: with the characters of its names.
pub enum Syntax {
    Program(Seq<Syntax>),
    Assign(Seq<char>, Box<Syntax>),
    Let(Seq<Syntax>, Box<Syntax>),
    Use(Seq<char>),
    BinOp(Box<Syntax>, Op, Box<Syntax>),
    App(Box<Syntax>, Box<Syntax>),
    Abs(Seq<char>, Box<Syntax>),
    Var(Seq<char>),
}

impl Ast {
    /// The tree with the characters of its names.
    pub open spec fn syntax(self) -> Syntax
        decreases self,
    {
        match self {
            Ast::Program(atoms) => Syntax::Program(
                Seq::new(
                    atoms.len() as nat,
                    |i: int|
                        if 0 <= i < atoms.len() {
                            atoms[i].syntax()
                        } else {
                            Syntax::Use(Seq::empty())
                        },
                ),
            ),
            Ast::Assign(name, m) => Syntax::Assign(name@, Box::new(m.syntax())),
            Ast::Let(defs, m) => Syntax::Let(
                Seq::new(
                    defs.len() as nat,
                    |i: int|
                        if 0 <= i < defs.len() {
                            defs[i].syntax()
                        } else {
                            Syntax::Use(Seq::empty())
                        },
                ),
                Box::new(m.syntax()),
            ),
            Ast::Use(path) => Syntax::Use(path@),
            Ast::BinOp(m, op, n) => Syntax::BinOp(Box::new(m.syntax()), op, Box::new(n.syntax())),
            Ast::App(m, n) => Syntax::App(Box::new(m.syntax()), Box::new(n.syntax())),
            Ast::Abs(name, m) => Syntax::Abs(name@, Box::new(m.syntax())),
            Ast::Var(name) => Syntax::Var(name@),
        }
    }
}

impl View for Ast {
    type V = Syntax;

    open spec fn view(&self) -> Syntax {
        self.syntax()
    }
}

} // verus!
