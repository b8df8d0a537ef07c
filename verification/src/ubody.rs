//! Expressions as they are written, before names are resolved: a small
//! syntax tree of names, abstractions and applications.

use vstd::prelude::*;
use crate::ast::Syntax;
use crate::text::push_str;

verus! {

/// An expression with its names as text.
#[derive(Debug, PartialEq, Eq)]
pub enum UnprocessedBody {
    Var(String),
    Abs(String, Box<UnprocessedBody>),
    App(Box<UnprocessedBody>, Box<UnprocessedBody>),
}

/// A line of a program: an expression, or the definition of a name.
#[derive(Debug, PartialEq, Eq)]
pub enum Ast {
    Expr(Box<UnprocessedBody>),
    LetExpr(String, Box<UnprocessedBody>),
}

impl Ast {
    /// The expression of a line that is one.
    pub fn into_ubody(self) -> (r: Box<UnprocessedBody>)
        requires
            self is Expr,
        ensures
            r == self->Expr_0,
    {
        match self {
            Ast::Expr(e) => e,
            Ast::LetExpr(_, e) => e,
        }
    }
}

impl UnprocessedBody {
    /// The number of names and abstractions of the expression.
    pub open spec fn size(self) -> nat
        decreases self,
    {
        match self {
            UnprocessedBody::Var(_) => 1,
            UnprocessedBody::App(f, x) => f.size() + x.size(),
            UnprocessedBody::Abs(_, b) => b.size() + 1,
        }
    }

    /// The name `what` occurs in the expression.
    pub open spec fn mentions(self, what: Seq<char>) -> bool
        decreases self,
    {
        match self {
            UnprocessedBody::Var(s) => s@ == what,
            UnprocessedBody::App(lhs, rhs) => lhs.mentions(what) || rhs.mentions(what),
            UnprocessedBody::Abs(_, l) => l.mentions(what),
        }
    }

    /// The expression as text: a name is itself, an application is its two
    /// parts with a space between, the second in round brackets where it is
    /// more than a name, and an abstraction is `λ`, its name, a dot and its
    /// body in round brackets.
    pub open spec fn show(self) -> Seq<char>
        decreases self,
    {
        match self {
            UnprocessedBody::Var(id) => id@,
            UnprocessedBody::App(f, x) => f.show() + seq![' '] + (if x.size() > 1 {
                seq!['('] + x.show() + seq![')']
            } else {
                x.show()
            }),
            UnprocessedBody::Abs(v, l) => seq!['λ'] + v@ + seq!['.', '('] + l.show() + seq![')'],
        }
    }

    /// The expression as a tree of the front end.
    pub open spec fn syntax(self) -> Syntax
        decreases self,
    {
        match self {
            UnprocessedBody::Var(id) => Syntax::Var(id@),
            UnprocessedBody::App(f, x) => Syntax::App(Box::new(f.syntax()), Box::new(x.syntax())),
            UnprocessedBody::Abs(v, l) => Syntax::Abs(v@, Box::new(l.syntax())),
        }
    }

    /// The number of names and abstractions of the expression, or the
    /// largest number of the machine's range where it has more.
    #[must_use]
    pub fn len(&self) -> (n: usize)
        ensures
            n >= 1,
            n == if self.size() <= usize::MAX {
                self.size()
            } else {
                usize::MAX as nat
            },
        decreases self,
    {
        match self {
            UnprocessedBody::Var(_) => 1,
            UnprocessedBody::App(f, x) => f.len().saturating_add(x.len()),
            UnprocessedBody::Abs(_, b) => b.len().saturating_add(1),
        }
    }

    /// Whether the name `what` occurs in the expression.
    #[must_use]
    pub fn contains(&self, what: &str) -> (r: bool)
        ensures
            r == self.mentions(what@),
        decreases self,
    {
        match self {
            UnprocessedBody::Var(s) => what.to_owned() == *s,
            UnprocessedBody::App(lhs, rhs) => lhs.contains(what) || rhs.contains(what),
            UnprocessedBody::Abs(_, l) => l.contains(what),
        }
    }

    fn write_to(&self, out: &mut String)
        ensures
            final(out)@ == old(out)@ + self.show(),
        decreases self,
    {
        match self {
            UnprocessedBody::Var(id) => {
                push_str(out, id.as_str());
            },
            UnprocessedBody::App(f, x) => {
                f.write_to(out);
                out.push(' ');
                if x.len() > 1 {
                    out.push('(');
                    x.write_to(out);
                    out.push(')');
                } else {
                    x.write_to(out);
                }
                assert(out@ =~= old(out)@ + self.show());
            },
            UnprocessedBody::Abs(v, l) => {
                out.push('λ');
                push_str(out, v.as_str());
                out.push('.');
                out.push('(');
                l.write_to(out);
                out.push(')');
                assert(out@ =~= old(out)@ + self.show());
            },
        }
    }

    /// The expression as text.
    pub fn to_string(&self) -> (s: String)
        ensures
            s@ == self.show(),
    {
        let mut s = String::new();
        self.write_to(&mut s);
        assert(s@ =~= self.show());
        s
    }

    /// The expression as a tree of the front end, which the compiler
    /// compiles.
    pub fn into_ast(self) -> (r: crate::ast::Ast)
        ensures
            r@ == self.syntax(),
        decreases self,
    {
        match self {
            UnprocessedBody::Var(id) => crate::ast::Ast::Var(id),
            UnprocessedBody::App(f, x) => crate::ast::Ast::App(
                Box::new(f.into_ast()),
                Box::new(x.into_ast()),
            ),
            UnprocessedBody::Abs(v, l) => crate::ast::Ast::Abs(v, Box::new(l.into_ast())),
        }
    }
}

} // verus!
