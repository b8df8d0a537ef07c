//! What a syntax tree means: the nameless term that it stands for under a
//! table of definitions.

use vstd::prelude::*;
use crate::alphabet::value_of;
use crate::ast::Syntax;
use crate::nameless::Nameless;
use crate::term::VarId;

verus! {

/// Why a syntax tree stands for no term.
pub enum Fault {
    /// A name is neither bound, nor defined, nor the name of an identifier.
    NotFound(Seq<char>),
    /// A definition is too large for the machine.
    TooLarge,
}

/// The definitions that a syntax tree is read under: the characters of each
/// name and the nameless form of its term, the latest last.
pub type Scope = Seq<(Seq<char>, Nameless)>;

/// The place of the latest definition of `name`.
pub open spec fn find(defs: Scope, name: Seq<char>) -> Option<int>
    decreases defs.len(),
{
    if defs.len() == 0 {
        None
    } else if defs.last().0 == name {
        Some(defs.len() - 1)
    } else {
        find(defs.drop_last(), name)
    }
}

/// Where the name `x` stands in the stack of bound names, counted from its
/// top.
pub open spec fn local_index(locals: Seq<Seq<char>>, x: Seq<char>) -> Option<int>
    decreases locals.len(),
{
    if locals.len() == 0 {
        None
    } else if locals.last() == x {
        Some(0)
    } else {
        match local_index(locals.drop_last(), x) {
            Some(i) => Some(i + 1),
            None => None,
        }
    }
}

/// The identifier that a name is the name of, where it is one within the
/// machine's range.
pub open spec fn name_index(x: Seq<char>) -> Option<VarId> {
    match value_of(x) {
        Some(n) => if n <= usize::MAX {
            Some(n as usize)
        } else {
            None
        },
        None => None,
    }
}

/// The definition of `name` as the term of form `form` refers to itself:
/// `name` is the name of an identifier that is free in the term.
pub open spec fn refers_to_itself(name: Seq<char>, form: Nameless) -> bool {
    match name_index(name) {
        Some(i) => form.names().contains(i),
        None => false,
    }
}

/// What a definition is stored as. One that refers to itself is made a
/// function of its own identifier, and the fixed-point combinator is applied
/// to that function; any other is stored as it is.
pub open spec fn stored(name: Seq<char>, form: Nameless) -> Nameless {
    if refers_to_itself(name, form) {
        Nameless::App(
            Box::new(y_form()),
            Box::new(Nameless::Abs(Box::new(form.bind(name_index(name)->0, 0)))),
        )
    } else {
        form
    }
}

/// The number of nodes that a definition is stored with.
pub open spec fn stored_nodes(name: Seq<char>, form: Nameless) -> nat {
    stored(name, form).nodes()
}

/// A definition that refers to itself is stored with 16 nodes more than it
/// has; any other with its own.
pub proof fn stored_nodes_value(name: Seq<char>, form: Nameless)
    ensures
        stored_nodes(name, form) == if refers_to_itself(name, form) {
            form.nodes() + 16
        } else {
            form.nodes()
        },
{
    if refers_to_itself(name, form) {
        let i = name_index(name)->0;
        form.bind_nodes(i, 0);
        let f = Nameless::Abs(Box::new(form.bind(i, 0)));
        assert(f.nodes() == 1 + form.nodes());
        assert(y_form().nodes() == 14) by {
            reveal_with_fuel(Nameless::nodes, 8);
        }
        assert(stored(name, form).nodes() == 1 + y_form().nodes() + f.nodes());
    }
}

/// The nameless form of the fixed-point combinator
/// `λf. (λx. f (x x)) (λx. f (x x))`.
pub open spec fn y_form() -> Nameless {
    let half = Nameless::Abs(
        Box::new(
            Nameless::App(
                Box::new(Nameless::Bound(1)),
                Box::new(
                    Nameless::App(Box::new(Nameless::Bound(0)), Box::new(Nameless::Bound(0))),
                ),
            ),
        ),
    );
    Nameless::Abs(Box::new(Nameless::App(Box::new(half), Box::new(half))))
}

/// The tree is an expression: names, applications, abstractions, and `let`
/// with definitions of expressions.
pub open spec fn is_expression(ast: Syntax) -> bool
    decreases ast,
{
    match ast {
        Syntax::Var(_) => true,
        Syntax::App(m, n) => is_expression(*m) && is_expression(*n),
        Syntax::Abs(_, m) => is_expression(*m),
        Syntax::Let(ds, m) => is_expression(*m) && forall|i: int|
            0 <= i < ds.len() ==> match #[trigger] ds[i] {
                Syntax::Assign(_, rhs) => is_expression(*rhs),
                _ => false,
            },
        _ => false,
    }
}

/// The term that an expression stands for, under the definitions `defs`
/// and below the bound names `locals`, the innermost last.
///
/// - A name stands for the variable that the innermost binder of that name
///   binds; else for the term of its latest definition; else for the free
///   variable whose name it is.
/// - The definitions of a `let` are made one after the other, from place
///   `i` on: each is read under the definitions before it, outside every
///   binder, and stored as a definition is. The body is read under all of
///   them.
pub open spec fn denote_from(ast: Syntax, defs: Scope, locals: Seq<Seq<char>>, i: int) -> core::result::Result<
    Nameless,
    Fault,
>
    decreases ast, (if ast is Let { ast->Let_0.len() - i } else { 0 }),
{
    match ast {
        Syntax::Var(x) => match local_index(locals, x) {
            Some(k) => Ok(Nameless::Bound(k)),
            None => match find(defs, x) {
                Some(k) => Ok(defs[k].1),
                None => match name_index(x) {
                    Some(n) => Ok(Nameless::Free(n)),
                    None => Err(Fault::NotFound(x)),
                },
            },
        },
        Syntax::App(m, n) => match denote_from(*m, defs, locals, 0) {
            Ok(f) => match denote_from(*n, defs, locals, 0) {
                Ok(a) => Ok(Nameless::App(Box::new(f), Box::new(a))),
                Err(e) => Err(e),
            },
            Err(e) => Err(e),
        },
        Syntax::Abs(x, m) => match denote_from(*m, defs, locals.push(x), 0) {
            Ok(b) => Ok(Nameless::Abs(Box::new(b))),
            Err(e) => Err(e),
        },
        Syntax::Let(ds, m) => if 0 <= i < ds.len() {
            match ds[i] {
                Syntax::Assign(name, rhs) => match denote_from(*rhs, defs, Seq::empty(), 0) {
                    Ok(form) => if stored_nodes(name, form) <= usize::MAX {
                        denote_from(ast, defs.push((name, stored(name, form))), locals, i + 1)
                    } else {
                        Err(Fault::TooLarge)
                    },
                    Err(e) => Err(e),
                },
                _ => Err(Fault::NotFound(Seq::empty())),
            }
        } else {
            denote_from(*m, defs, locals, 0)
        },
        _ => Err(Fault::NotFound(Seq::empty())),
    }
}

/// The term that an expression stands for under the definitions `defs`.
pub open spec fn denote(ast: Syntax, defs: Scope) -> core::result::Result<Nameless, Fault> {
    denote_from(ast, defs, Seq::empty(), 0)
}

/// The identifiers that the definitions of every `let` of a tree may be
/// stored with as binders, besides those that their abstractions get: the
/// two of the fixed-point combinator, 0 and 1, and the identifier that the
/// name of a definition is the name of; counted from the definition at
/// place `i` on where the tree is a `let`.
pub open spec fn wrap_ids_from(ast: Syntax, i: int) -> Set<VarId>
    decreases ast, (if ast is Let { ast->Let_0.len() - i } else { 0 }),
{
    match ast {
        Syntax::App(m, n) => wrap_ids_from(*m, 0).union(wrap_ids_from(*n, 0)),
        Syntax::Abs(_, m) => wrap_ids_from(*m, 0),
        Syntax::Let(ds, m) => if 0 <= i < ds.len() {
            (match ds[i] {
                Syntax::Assign(name, rhs) => wrap_ids_from(*rhs, 0).union(set![0usize, 1usize]).union(
                    match name_index(name) {
                        Some(k) => set![k],
                        None => Set::empty(),
                    },
                ),
                _ => Set::empty(),
            }).union(wrap_ids_from(ast, i + 1))
        } else {
            wrap_ids_from(*m, 0)
        },
        _ => Set::empty(),
    }
}

/// The identifiers that the definitions of every `let` of a tree may be
/// stored with as binders, besides those that their abstractions get.
pub open spec fn wrap_ids(ast: Syntax) -> Set<VarId> {
    wrap_ids_from(ast, 0)
}

/// The number of abstractions of a tree, counted from the definition at
/// place `i` on where the tree is a `let`.
pub open spec fn binders_from(ast: Syntax, i: int) -> nat
    decreases ast, (if ast is Let { ast->Let_0.len() - i } else { 0 }),
{
    match ast {
        Syntax::App(m, n) => binders_from(*m, 0) + binders_from(*n, 0),
        Syntax::Abs(_, m) => 1 + binders_from(*m, 0),
        Syntax::Let(ds, m) => if 0 <= i < ds.len() {
            (match ds[i] {
                Syntax::Assign(_, rhs) => binders_from(*rhs, 0),
                _ => 0,
            }) + binders_from(ast, i + 1)
        } else {
            binders_from(*m, 0)
        },
        _ => 0,
    }
}

/// The number of abstractions of a tree.
pub open spec fn binders(ast: Syntax) -> nat {
    binders_from(ast, 0)
}

/// A number that the identifier of every name of the tree is less than:
/// the least such, counted from the definition at place `i` on where the
/// tree is a `let`.
pub open spec fn index_bound_from(ast: Syntax, i: int) -> nat
    decreases ast, (if ast is Let { ast->Let_0.len() - i } else { 0 }),
{
    match ast {
        Syntax::Var(x) => match name_index(x) {
            Some(n) => (n + 1) as nat,
            None => 0,
        },
        Syntax::App(m, n) => larger(index_bound_from(*m, 0), index_bound_from(*n, 0)),
        Syntax::Abs(_, m) => index_bound_from(*m, 0),
        Syntax::Let(ds, m) => if 0 <= i < ds.len() {
            larger(
                match ds[i] {
                    Syntax::Assign(_, rhs) => index_bound_from(*rhs, 0),
                    _ => 0,
                },
                index_bound_from(ast, i + 1),
            )
        } else {
            index_bound_from(*m, 0)
        },
        _ => 0,
    }
}

/// A number that the identifier of every name of the tree is less than.
pub open spec fn index_bound(ast: Syntax) -> nat {
    index_bound_from(ast, 0)
}

/// The larger of two numbers.
pub open spec fn larger(a: nat, b: nat) -> nat {
    if a >= b {
        a
    } else {
        b
    }
}

} // verus!
