//! The compiler: the table of definitions, the compiling of syntax trees
//! into terms, and the printing of terms under the names that the
//! definitions give them.

use vstd::prelude::*;
use crate::alpha::{alpha_equiv, same_tree_same_nameless};
use crate::alphabet::{alias_of, get_alias, get_idx, value_of};
use crate::ast::{Ast, Syntax};
use crate::canon::{canonical_forms_decide_alpha, index_of_increasing, nameless_agrees};
use crate::denote::{
    binders, binders_from, denote, denote_from, find, index_bound, index_bound_from, larger,
    wrap_ids, wrap_ids_from,
    local_index, name_index, refers_to_itself, stored, stored_nodes, stored_nodes_value, y_form,
    Fault, Scope,
};
use crate::error::Error;
use crate::nameless::{
    index_of, index_of_bounds, nameless_unfold, names_of_view, nodes_of_nameless, Nameless,
};
use crate::subst::nameless_bind;
use crate::term::{Body, Term, VarId};
use crate::text::push_str;

verus! {

/// The table of definitions. A name stands for the term that the latest
/// definition of it gives; a term is known under the name of the latest
/// definition that it is alpha-equivalent to.
pub struct Compiler {
    /// The definitions in the order they were made: name and term.
    pub defs: Vec<(String, Term)>,
    /// For each definition the canonical form of its term, and its name.
    pub aliases: Vec<(Term, String)>,
    /// The next identifier to give to a bound variable.
    pub next: usize,
}

/// The place of the latest definition of a term with the nameless form
/// `form`.
pub open spec fn find_like(defs: Scope, form: Nameless) -> Option<int>
    decreases defs.len(),
{
    if defs.len() == 0 {
        None
    } else if defs.last().1 == form {
        Some(defs.len() - 1)
    } else {
        find_like(defs.drop_last(), form)
    }
}

/// What `find` gives is a place of the table that holds the name.
pub proof fn find_bounds(defs: Scope, name: Seq<char>)
    ensures
        match find(defs, name) {
            Some(k) => 0 <= k < defs.len() && defs[k].0 == name,
            None => forall|i: int| 0 <= i < defs.len() ==> defs[i].0 != name,
        },
    decreases defs.len(),
{
    if defs.len() > 0 && defs.last().0 != name {
        find_bounds(defs.drop_last(), name);
        assert forall|i: int| 0 <= i < defs.len() - 1 implies defs[i] == defs.drop_last()[i] by {}
    }
}

/// The fixed-point combinator `λf. (λx. f (x x)) (λx. f (x x))`.
pub fn get_y_combinator() -> (y: Term)
    ensures
        y@ == y_form(),
        y.wf(),
        y.size() == 14,
        y.fv() == Set::<VarId>::empty(),
        forall|v: VarId| y.bv().contains(v) ==> v <= 1,
{
    let left = Term::abs(1, Term::app(Term::var(0), Term::app(Term::var(1), Term::var(1))));
    let right = Term::abs(1, Term::app(Term::var(0), Term::app(Term::var(1), Term::var(1))));
    let both = Term::app(left, right);
    let y = Term::abs(0, both);
    proof {
        crate::nameless::index_of_few(0, 1, 0, 0);
        crate::nameless::index_of_few(0, 1, 0, 1);
        assert(left.fv() =~= set![0usize]);
        assert(right.fv() =~= set![0usize]);
        assert(y.fv() =~= Set::<VarId>::empty());
    }
    y
}

impl View for Compiler {
    type V = Seq<(Seq<char>, Nameless)>;

    /// The definitions in order: the characters of each name and the
    /// nameless form of its term.
    open spec fn view(&self) -> Seq<(Seq<char>, Nameless)> {
        Seq::new(self.defs@.len(), |i: int| (self.defs@[i].0@, self.defs@[i].1@))
    }
}

/// The text of a term under the definitions `defs`: the name of the latest
/// definition that the term is alpha-equivalent to, where there is one;
/// else a variable is the name of its identifier, an application is its
/// two parts with a space between, the second in round brackets where it is
/// no variable and has no name, and an abstraction is `λ`, the name of its
/// variable, a space and its body.
pub open spec fn pretty(defs: Scope, t: Term) -> Seq<char>
    decreases t,
{
    match find_like(defs, t@) {
        Some(k) => defs[k].0,
        None => match *t.body {
            Body::Var(v) => alias_of(v as nat),
            Body::App(m, n) => pretty(defs, m) + seq![' '] + (if !(*n.body is Var) && find_like(
                defs,
                n@,
            ) is None {
                seq!['('] + pretty(defs, n) + seq![')']
            } else {
                pretty(defs, n)
            }),
            Body::Abs(v, m) => seq!['λ'] + alias_of(v as nat) + seq![' '] + pretty(defs, m),
        },
    }
}

impl Compiler {
    /// The table is sound: a term and a canonical form for each name, the
    /// canonical form that of the term, the flags of the terms truthful, and
    /// every free variable of a term less than the next identifier to give
    /// out.
    pub open spec fn wf(self) -> bool {
        &&& self.aliases@.len() == self.defs@.len()
        &&& forall|i: int|
            0 <= i < self.defs@.len() ==> {
                &&& (#[trigger] self.defs@[i]).1.wf()
                &&& self.defs@[i].1.free_below(self.next as int)
                &&& self.aliases@[i].1@ == self.defs@[i].0@
                &&& self.aliases@[i].0.is_canonical()
                &&& alpha_equiv(self.aliases@[i].0, self.defs@[i].1)
            }
    }

    /// Every canonical term of the table can be counted node by node.
    pub open spec fn countable(self) -> bool {
        forall|i: int|
            0 <= i < self.aliases@.len() ==> (#[trigger] self.aliases@[i]).0.size() <= usize::MAX
    }

    /// Whether the table is in order. `true` is given only for a table that
    /// is, and for every such table whose canonical terms can be counted.
    pub fn is_wf(&self) -> (r: bool)
        ensures
            r ==> self.wf(),
            self.wf() && self.countable() ==> r,
    {
        if self.aliases.len() != self.defs.len() {
            return false;
        }
        let mut i: usize = 0;
        while i < self.defs.len()
            invariant
                i <= self.defs.len(),
                self.aliases@.len() == self.defs@.len(),
                forall|j: int|
                    0 <= j < i ==> {
                        &&& (#[trigger] self.defs@[j]).1.wf()
                        &&& self.defs@[j].1.free_below(self.next as int)
                        &&& self.aliases@[j].1@ == self.defs@[j].0@
                        &&& self.aliases@[j].0.is_canonical()
                        &&& alpha_equiv(self.aliases@[j].0, self.defs@[j].1)
                    },
            decreases self.defs.len() - i,
        {
            let def = &self.defs[i];
            let alias = &self.aliases[i];
            let below = match def.1.free_bound() {
                Some(b) => b <= self.next,
                None => false,
            };
            let ok = def.1.is_wf() && below && alias.1 == def.0 && alias.0.is_canonical_form()
                && alias.0.alpha_eq(&def.1);
            if !ok {
                proof {
                    assert(self.aliases@[i as int] == *alias);
                    assert(self.defs@[i as int] == *def);
                }
                return false;
            }
            i = i + 1;
        }
        true
    }

    /// A table without definitions.
    pub fn new() -> (c: Compiler)
        ensures
            c.wf(),
            c@ == Seq::<(Seq<char>, Nameless)>::empty(),
            c.next == 0,
    {
        let c = Compiler { defs: Vec::new(), aliases: Vec::new(), next: 0 };
        assert(c@ =~= Seq::empty());
        c
    }

    /// The place of the latest definition of `name`.
    pub fn position(&self, name: &String) -> (r: Option<usize>)
        ensures
            match r {
                Some(k) => find(self@, name@) == Some(k as int) && k < self.defs.len(),
                None => find(self@, name@) is None,
            },
    {
        let mut i: usize = self.defs.len();
        assert(self@.take(i as int) =~= self@);
        while i > 0
            invariant
                i <= self.defs.len(),
                find(self@, name@) == find(self@.take(i as int), name@),
            decreases i,
        {
            proof {
                assert(self@.take(i as int).drop_last() =~= self@.take(i - 1));
                assert(self@.take(i as int).last() == self@[i - 1]);
            }
            if self.defs[i - 1].0 == *name {
                return Some(i - 1);
            }
            i = i - 1;
        }
        None
    }

    /// The term that `name` stands for.
    pub fn get(&self, name: &String) -> (r: Option<&Term>)
        ensures
            match r {
                Some(t) => find(self@, name@) is Some && *t == self.defs@[find(
                    self@,
                    name@,
                )->0].1,
                None => find(self@, name@) is None,
            },
    {
        match self.position(name) {
            Some(k) => Some(&self.defs[k].1),
            None => None,
        }
    }

    /// The place of the latest definition whose term has the canonical form
    /// `canon`.
    fn position_like(&self, canon: &Term, Ghost(t): Ghost<Term>) -> (r: Option<usize>)
        requires
            self.wf(),
            canon.is_canonical(),
            alpha_equiv(*canon, t),
        ensures
            match r {
                Some(k) => find_like(self@, t@) == Some(k as int) && k < self.defs.len(),
                None => find_like(self@, t@) is None,
            },
    {
        let mut i: usize = self.aliases.len();
        assert(self@.take(i as int) =~= self@);
        while i > 0
            invariant
                self.wf(),
                canon.is_canonical(),
                alpha_equiv(*canon, t),
                i <= self.defs.len(),
                find_like(self@, t@) == find_like(self@.take(i as int), t@),
            decreases i,
        {
            proof {
                assert(self@.take(i as int).drop_last() =~= self@.take(i - 1));
                assert(self@.take(i as int).last() == self@[i - 1]);
                let d = self.defs@[i - 1];
                canonical_forms_decide_alpha(d.1, t, self.aliases@[i - 1].0, *canon);
            }
            if self.aliases[i - 1].0.same(canon) {
                return Some(i - 1);
            }
            i = i - 1;
        }
        None
    }

    /// The name of the latest definition that `t` is alpha-equivalent to.
    pub fn get_like(&self, t: &Term) -> (r: Option<&String>)
        requires
            self.wf(),
            t.wf(),
            t.size() <= usize::MAX,
        ensures
            match r {
                Some(name) => find_like(self@, t@) is Some && name@ == self@[find_like(
                    self@,
                    t@,
                )->0].0,
                None => find_like(self@, t@) is None,
            },
    {
        let canon = t.clone().debrejin_reduced();
        match self.position_like(&canon, Ghost(*t)) {
            Some(k) => Some(&self.aliases[k].1),
            None => None,
        }
    }

    /// The name of the identifier `var`.
    pub fn get_alias(var: usize) -> (s: String)
        ensures
            s@ == alias_of(var as nat),
    {
        get_alias(var)
    }

    fn pretty_into(&self, t: &Term, out: &mut String)
        requires
            self.wf(),
            t.wf(),
            t.size() <= usize::MAX,
        ensures
            final(out)@ == old(out)@ + pretty(self@, *t),
        decreases t,
    {
        match self.get_like(t) {
            Some(name) => {
                push_str(out, name.as_str());
                return ;
            },
            None => {},
        }
        match &*t.body {
            Body::Var(v) => {
                let name = get_alias(*v);
                push_str(out, name.as_str());
            },
            Body::App(m, n) => {
                self.pretty_into(m, out);
                out.push(' ');
                let bare = match &*n.body {
                    Body::Var(_) => true,
                    _ => false,
                };
                let wrap = !bare && self.get_like(n).is_none();
                if wrap {
                    out.push('(');
                    self.pretty_into(n, out);
                    out.push(')');
                } else {
                    self.pretty_into(n, out);
                }
                assert(out@ =~= old(out)@ + pretty(self@, *t));
            },
            Body::Abs(v, m) => {
                out.push('λ');
                let name = get_alias(*v);
                push_str(out, name.as_str());
                out.push(' ');
                self.pretty_into(m, out);
                assert(out@ =~= old(out)@ + pretty(self@, *t));
            },
        }
    }

    /// The text of `t` under the names that the definitions give: wherever
    /// a part of `t` is alpha-equivalent to the term of a definition, the
    /// name of the latest such definition stands for it.
    pub fn pretty_show(&self, t: &Term) -> (s: String)
        requires
            self.wf(),
            t.wf(),
            t.size() <= usize::MAX,
        ensures
            s@ == pretty(self@, *t),
    {
        let mut s = String::new();
        self.pretty_into(t, &mut s);
        assert(s@ =~= pretty(self@, *t));
        s
    }

    /// Some definition of the table binds the identifier `v`.
    pub open spec fn binds(self, v: VarId) -> bool {
        exists|k: int| 0 <= k < self.defs@.len() && (#[trigger] self.defs@[k]).1.bv().contains(v)
    }

    /// Every binder of every definition is an identifier from `lo` on that
    /// the table has given out, or one of `allowed`.
    pub open spec fn defs_among(self, lo: int, allowed: Set<VarId>) -> bool {
        forall|k: int|
            0 <= k < self.defs@.len() ==> binders_among(
                (#[trigger] self.defs@[k]).1,
                lo,
                self.next as int,
                allowed,
            )
    }

    /// Every free variable of every definition is less than `floor`.
    pub open spec fn defs_below(self, floor: int) -> bool {
        forall|i: int|
            0 <= i < self.defs@.len() ==> (#[trigger] self.defs@[i]).1.free_below(floor)
    }

    /// Puts the definition of `name` as `def` on the table, over any that
    /// the name has. A definition that refers to itself is stored as the
    /// fixed-point combinator applied to a function of its own identifier.
    pub fn push_def(&mut self, name: String, def: Term) -> (r: Result<(), Error>)
        requires
            old(self).wf(),
            def.wf(),
        ensures
            final(self).wf(),
            final(self).next >= old(self).next,
            def.free_below(old(self).next as int) ==> final(self).next == old(self).next,
            if stored_nodes(name@, def@) <= usize::MAX && def.free_below(usize::MAX as int) {
                &&& r is Ok
                &&& final(self)@ == old(self)@.push((name@, stored(name@, def@)))
                &&& final(self).defs@.len() == old(self).defs@.len() + 1
                &&& final(self).defs@.last().1.fv().subset_of(def.fv())
                &&& forall|v: VarId| #[trigger]
                    final(self).defs@.last().1.bv().contains(v) ==> def.bv().contains(v) || v <= 1
                        || name_index(name@) == Some(v)
                &&& final(self).defs@.take(old(self).defs@.len() as int) == old(self).defs@
                &&& final(self).aliases@.take(old(self).defs@.len() as int) == old(self).aliases@
            } else {
                &&& r is Err
                &&& r->Err_0 is OutOfRange
                &&& *final(self) == *old(self)
            },
    {
        proof {
            names_of_view(def);
            nodes_of_nameless(def, Seq::empty());
            stored_nodes_value(name@, def@);
        }
        let bound = match def.free_bound() {
            Some(b) => b,
            None => {
                return Err(Error::OutOfRange);
            },
        };
        let size = match def.checked_len() {
            Some(n) => n,
            None => {
                proof {
                    if refers_to_itself(name@, def@) {
                        let i = name_index(name@)->0;
                        def@.bind_nodes(i, 0);
                    }
                }
                return Err(Error::OutOfRange);
            },
        };
        let own = get_idx(name.as_str());
        let recursive = match own {
            Some(i) => def.has_free(i),
            None => false,
        };
        assert(recursive == refers_to_itself(name@, def@));
        proof {
            if recursive {
                let i = name_index(name@)->0;
                def@.bind_nodes(i, 0);
            }
        }
        if recursive && size > usize::MAX - 16 {
            return Err(Error::OutOfRange);
        }
        let ghost fv_def = def.fv();
        let ghost bv_def = def.bv();
        let kept = match own {
            Some(i) => {
                if recursive {
                    let y = get_y_combinator();
                    let f = Term::abs(i, def);
                    proof {
                        nameless_unfold(f, Seq::empty());
                        assert(Seq::<VarId>::empty().push(i) =~= seq![i]);
                        nameless_bind(def, i, Seq::empty());
                        assert(seq![i] + Seq::<VarId>::empty() =~= seq![i]);
                    }
                    let t = Term::app(y, f);
                    proof {
                        nameless_unfold(t, Seq::empty());
                        assert(t.fv() =~= fv_def.remove(i));
                    }
                    t
                } else {
                    def
                }
            },
            None => def,
        };
        assert(kept@ == stored(name@, def@));
        assert forall|v: VarId| #[trigger] kept.bv().contains(v) implies bv_def.contains(v) || v <= 1
            || name_index(name@) == Some(v) by {}
        assert(kept.fv().subset_of(fv_def));
        assert(kept.free_below(bound as int));
        let ghost old_view = self@;
        if bound > self.next {
            proof {
                assert forall|i: int| 0 <= i < self.defs@.len() implies (
                #[trigger] self.defs@[i]).1.free_below(bound as int) by {}
            }
            self.next = bound;
        }
        proof {
            nodes_of_nameless(kept, Seq::empty());
        }
        let canon = kept.clone().debrejin_reduced();
        let alias = name.clone();
        let ghost before = *self;
        assert(before.wf());
        self.aliases.push((canon, alias));
        self.defs.push((name, kept));
        proof {
            assert(self@ =~= old_view.push((name@, stored(name@, def@))));
            assert(old_view =~= old(self)@);
            assert(self.defs@.take(old(self).defs@.len() as int) =~= old(self).defs@);
            assert(self.aliases@.take(old(self).defs@.len() as int) =~= old(self).aliases@);
            assert forall|i: int| 0 <= i < self.defs@.len() implies {
                &&& (#[trigger] self.defs@[i]).1.wf()
                &&& self.defs@[i].1.free_below(self.next as int)
                &&& self.aliases@[i].1@ == self.defs@[i].0@
                &&& self.aliases@[i].0.is_canonical()
                &&& alpha_equiv(self.aliases@[i].0, self.defs@[i].1)
            } by {
                if i < before.defs@.len() {
                    assert(self.defs@[i] == before.defs@[i]);
                    assert(self.aliases@[i] == before.aliases@[i]);
                }
            }
        }
        Ok(())
    }

    /// Takes the latest definition off the table.
    fn pop_def(&mut self)
        requires
            old(self).wf(),
            old(self).defs@.len() > 0,
        ensures
            final(self).wf(),
            final(self).next == old(self).next,
            final(self).defs@ == old(self).defs@.drop_last(),
            final(self).aliases@ == old(self).aliases@.drop_last(),
            final(self)@ == old(self)@.drop_last(),
    {
        self.defs.pop();
        self.aliases.pop();
        proof {
            assert(self@ =~= old(self)@.drop_last());
            assert forall|i: int| 0 <= i < self.defs@.len() implies {
                &&& (#[trigger] self.defs@[i]).1.wf()
                &&& self.defs@[i].1.free_below(self.next as int)
                &&& self.aliases@[i].1@ == self.defs@[i].0@
                &&& self.aliases@[i].0.is_canonical()
                &&& alpha_equiv(self.aliases@[i].0, self.defs@[i].1)
            } by {
                assert(self.defs@[i] == old(self).defs@[i]);
                assert(self.aliases@[i] == old(self).aliases@[i]);
            }
        }
    }

    /// Defines `name` as `def`. A name that is defined already is refused,
    /// and the error holds the term it stands for. A definition that refers
    /// to itself, in that its name is the name of an identifier that occurs
    /// free in `def`, is stored as the fixed-point combinator applied to
    /// `def` as a function of that identifier.
    pub fn insert(&mut self, name: String, def: Term) -> (r: Result<(), Error>)
        requires
            old(self).wf(),
            def.wf(),
        ensures
            final(self).wf(),
            final(self).next >= old(self).next,
            def.free_below(old(self).next as int) ==> final(self).next == old(self).next,
            match find(old(self)@, name@) {
                Some(k) => {
                    &&& r is Err
                    &&& r->Err_0 is AlreadyDefined
                    &&& r->Err_0->AlreadyDefined_0@ == name@
                    &&& r->Err_0->AlreadyDefined_1 == old(self).defs@[k].1
                    &&& *final(self) == *old(self)
                },
                None => if stored_nodes(name@, def@) <= usize::MAX && def.free_below(
                    usize::MAX as int,
                ) {
                    &&& r is Ok
                    &&& final(self)@ == old(self)@.push((name@, stored(name@, def@)))
                } else {
                    &&& r is Err
                    &&& r->Err_0 is OutOfRange
                    &&& *final(self) == *old(self)
                },
            },
    {
        proof {
            find_bounds(self@, name@);
        }
        match self.position(&name) {
            Some(k) => {
                return Err(Error::AlreadyDefined(name, self.defs[k].1.clone()));
            },
            None => {},
        }
        self.push_def(name, def)
    }
}

/// Every binder of `t` is an identifier from `lo` on and below `hi`, or one
/// of `allowed`.
pub open spec fn binders_among(t: Term, lo: int, hi: int, allowed: Set<VarId>) -> bool {
    forall|v: VarId| (#[trigger] t.bv().contains(v)) ==> lo <= v < hi || allowed.contains(v)
}

/// The names of the binders around a tree that is compiled, the innermost
/// last.
pub open spec fn ctx_names(ctx: Seq<(String, VarId)>) -> Seq<Seq<char>> {
    Seq::new(ctx.len(), |i: int| ctx[i].0@)
}

/// The identifiers given to the binders around a tree, the innermost
/// last.
pub open spec fn ctx_ids(ctx: Seq<(String, VarId)>) -> Seq<VarId> {
    Seq::new(ctx.len(), |i: int| ctx[i].1)
}

/// The identifiers of the binders grow from the outermost to the
/// innermost, and lie from `floor` on and before `next`.
pub open spec fn ctx_ok(ctx: Seq<(String, VarId)>, floor: int, next: int) -> bool {
    &&& forall|i: int, j: int| 0 <= i < j < ctx.len() ==> ctx[i].1 < ctx[j].1
    &&& forall|i: int| 0 <= i < ctx.len() ==> floor <= (#[trigger] ctx[i]).1 < next
}

/// What the compiler owes: a term of the form that the tree stands for,
/// whose free variables are identifiers of names or of the binders around
/// it; or the error of the fault.
pub open spec fn dumped(
    r: Result<Term, Error>,
    model: core::result::Result<Nameless, Fault>,
    ids: Seq<VarId>,
    floor: int,
) -> bool {
    match model {
        Ok(form) => {
            &&& r is Ok
            &&& r->Ok_0.nameless_in(ids) == form
            &&& r->Ok_0.wf()
            &&& forall|v: VarId| (#[trigger] r->Ok_0.fv().contains(v)) ==> v < floor || ids.contains(v)
        },
        Err(Fault::NotFound(x)) => r is Err && r->Err_0 is DefNotFound
            && r->Err_0->DefNotFound_0@ == x,
        Err(Fault::TooLarge) => r is Err && r->Err_0 is OutOfRange,
    }
}

/// The place in `ctx` of the innermost binder of the name `x`.
fn local(ctx: &Vec<(String, VarId)>, x: &String) -> (r: Option<usize>)
    ensures
        match r {
            Some(p) => p < ctx.len() && local_index(ctx_names(ctx@), x@) == Some(
                ctx.len() - 1 - p,
            ),
            None => local_index(ctx_names(ctx@), x@) is None,
        },
{
    let ghost names = ctx_names(ctx@);
    let n = ctx.len();
    let mut i: usize = n;
    assert(names.take(n as int) =~= names);
    while i > 0
        invariant
            i <= n,
            n == ctx.len(),
            names == ctx_names(ctx@),
            local_index(names, x@) == match local_index(names.take(i as int), x@) {
                Some(k) => Some(k + (n - i)),
                None => None,
            },
        decreases i,
    {
        proof {
            assert(names.take(i as int).drop_last() =~= names.take(i - 1));
            assert(names.take(i as int).last() == names[i - 1]);
        }
        if ctx[i - 1].0 == *x {
            return Some(i - 1);
        }
        i = i - 1;
    }
    None
}

/// The two bounds of a tree joined: the larger of the bounds on names, and
/// the sum of the numbers of abstractions.
fn join(a: Option<(usize, usize)>, b: Option<(usize, usize)>) -> (r: Option<(usize, usize)>)
    ensures
        match (a, b) {
            (Some(a), Some(b)) => match r {
                Some(r) => r.0 == larger(a.0 as nat, b.0 as nat) && r.1 == a.1 + b.1,
                None => a.1 + b.1 > usize::MAX,
            },
            _ => r is None,
        },
{
    match (a, b) {
        (Some(a), Some(b)) => match a.1.checked_add(b.1) {
            Some(n) => Some(
                (
                    if a.0 >= b.0 {
                        a.0
                    } else {
                        b.0
                    },
                    n,
                ),
            ),
            None => None,
        },
        _ => None,
    }
}

/// A bound on the identifiers of the names of a tree, and the number of
/// its abstractions, where both fit the machine's range.
fn survey_from(t: &Ast, i: usize) -> (r: Option<(usize, usize)>)
    ensures
        match r {
            Some((b, n)) => b == index_bound_from(t@, i as int) && n == binders_from(
                t@,
                i as int,
            ),
            None => index_bound_from(t@, i as int) > usize::MAX || binders_from(t@, i as int)
                > usize::MAX,
        },
    decreases t, (if t is Let { t->Let_0.len() - i } else { 0 }),
{
    match t {
        Ast::Var(x) => match get_idx(x.as_str()) {
            Some(n) => match n.checked_add(1) {
                Some(b) => Some((b, 0)),
                None => None,
            },
            None => Some((0, 0)),
        },
        Ast::App(m, n) => {
            let a = survey_from(m, 0);
            let b = survey_from(n, 0);
            join(a, b)
        },
        Ast::Abs(_, m) => match survey_from(m, 0) {
            Some((b, n)) => match n.checked_add(1) {
                Some(n) => Some((b, n)),
                None => None,
            },
            None => None,
        },
        Ast::Let(defs, m) => {
            if i < defs.len() {
                proof {
                    assert(t@->Let_0[i as int] == defs@[i as int]@);
                }
                let a = match &defs[i] {
                    Ast::Assign(_, rhs) => survey_from(rhs, 0),
                    _ => Some((0, 0)),
                };
                let b = survey_from(t, i + 1);
                join(a, b)
            } else {
                survey_from(m, 0)
            }
        },
        _ => Some((0, 0)),
    }
}

/// A table that has given out more identifiers, with the same definitions,
/// has its binders among them all the same.
proof fn among_grows(before: Compiler, after: Compiler, lo: int, allowed: Set<VarId>)
    requires
        before.defs_among(lo, allowed),
        after.defs@ == before.defs@,
        before.next <= after.next,
    ensures
        after.defs_among(lo, allowed),
{
    assert forall|k: int| 0 <= k < after.defs@.len() implies binders_among(
        (#[trigger] after.defs@[k]).1,
        lo,
        after.next as int,
        allowed,
    ) by {
        assert(binders_among(before.defs@[k].1, lo, before.next as int, allowed));
    }
}

impl Compiler {
    /// Compiles the tree `t`, a `let` from its definition at place `i`
    /// on, below the binders `ctx`. The table is what it was when the
    /// work ends, whether it ends well or not.
    fn dump_from(
        &mut self,
        ctx: &mut Vec<(String, VarId)>,
        t: &Ast,
        i: usize,
        Ghost(floor): Ghost<int>,
        Ghost(allowed): Ghost<Set<VarId>>,
    ) -> (r: Result<Term, Error>)
        requires
            old(self).wf(),
            old(self).defs_below(floor),
            old(self).defs_among(floor, allowed),
            wrap_ids_from(t@, i as int).subset_of(allowed),
            floor <= old(self).next,
            ctx_ok(old(ctx)@, floor, old(self).next as int),
            index_bound_from(t@, i as int) <= floor,
            old(self).next + binders_from(t@, i as int) <= usize::MAX,
        ensures
            final(self).wf(),
            final(self).defs_below(floor),
            final(self).defs@ == old(self).defs@,
            final(self).aliases@ == old(self).aliases@,
            old(self).next <= final(self).next <= old(self).next + binders_from(t@, i as int),
            r is Ok ==> final(self).next == old(self).next + binders_from(t@, i as int),
            final(ctx)@ == old(ctx)@,
            r is Ok ==> binders_among(r->Ok_0, floor, final(self).next as int, allowed),
            dumped(
                r,
                denote_from(t@, old(self)@, ctx_names(old(ctx)@), i as int),
                ctx_ids(old(ctx)@),
                floor,
            ),
        decreases t, (if t is Let { t->Let_0.len() - i } else { 0 }),
    {
        let ghost ids = ctx_ids(ctx@);
        let ghost names = ctx_names(ctx@);
        match t {
            Ast::Var(x) => {
                match local(ctx, x) {
                    Some(p) => {
                        let r = Term::var(ctx[p].1);
                        proof {
                            index_of_increasing(ids, p as int);
                            nameless_unfold(r, ids);
                            assert(ids[p as int] == ctx@[p as int].1);
                            assert(ids.contains(ctx@[p as int].1));
                        }
                        return Ok(r);
                    },
                    None => {},
                }
                match self.position(x) {
                    Some(k) => {
                        let r = self.defs[k].1.clone();
                        proof {
                            assert(self.defs@[k as int].1.free_below(floor));
                            assert(binders_among(
                                self.defs@[k as int].1,
                                floor,
                                self.next as int,
                                allowed,
                            ));
                            assert forall|v: VarId| r.fv().contains(v) implies index_of(ids, v)
                                == index_of(Seq::<VarId>::empty(), v) by {
                                index_of_bounds(ids, v);
                                if index_of(ids, v) is Some {
                                    let j = ids.len() - 1 - index_of(ids, v)->0;
                                    assert(ids[j] == ctx@[j].1);
                                }
                            }
                            nameless_agrees(r, ids, Seq::empty());
                            assert(self@[k as int].1 == r@);
                        }
                        return Ok(r);
                    },
                    None => {},
                }
                match get_idx(x.as_str()) {
                    Some(n) => {
                        let r = Term::var(n);
                        proof {
                            nameless_unfold(r, ids);
                            index_of_bounds(ids, n);
                            if index_of(ids, n) is Some {
                                let j = ids.len() - 1 - index_of(ids, n)->0;
                                assert(ids[j] == ctx@[j].1);
                            }
                        }
                        Ok(r)
                    },
                    None => Err(Error::DefNotFound(x.clone())),
                }
            },
            Ast::App(m, n) => {
                proof {
                    assert(wrap_ids_from(m@, 0).subset_of(allowed));
                    assert(wrap_ids_from(n@, 0).subset_of(allowed));
                }
                let f = match self.dump_from(ctx, m, 0, Ghost(floor), Ghost(allowed)) {
                    Ok(f) => f,
                    Err(e) => {
                        return Err(e);
                    },
                };
                proof {
                    among_grows(*old(self), *self, floor, allowed);
                }
                let a = match self.dump_from(ctx, n, 0, Ghost(floor), Ghost(allowed)) {
                    Ok(a) => a,
                    Err(e) => {
                        return Err(e);
                    },
                };
                let r = Term::app(f, a);
                proof {
                    assert forall|v: VarId| (#[trigger] r.bv().contains(v)) implies floor <= v
                        < self.next || allowed.contains(v) by {
                        assert(f.bv().contains(v) || a.bv().contains(v));
                    }
                    nameless_unfold(r, ids);
                    assert forall|v: VarId| (#[trigger] r.fv().contains(v)) implies v < floor
                        || ids.contains(v) by {
                        assert(f.fv().contains(v) || a.fv().contains(v));
                    }
                }
                Ok(r)
            },
            Ast::Abs(x, m) => {
                let v = self.next;
                proof {
                    assert forall|k: int| 0 <= k < self.defs@.len() implies (
                    #[trigger] self.defs@[k]).1.free_below(v + 1) by {}
                }
                self.next = v + 1;
                proof {
                    among_grows(*old(self), *self, floor, allowed);
                    assert(wrap_ids_from(m@, 0).subset_of(allowed));
                }
                ctx.push((x.clone(), v));
                proof {
                    assert(ctx_names(ctx@) =~= names.push(x@));
                    assert(ctx_ids(ctx@) =~= ids.push(v));
                }
                let r = self.dump_from(ctx, m, 0, Ghost(floor), Ghost(allowed));
                ctx.pop();
                proof {
                    assert(ctx@ =~= old(ctx)@);
                }
                match r {
                    Ok(b) => {
                        let r = Term::abs(v, b);
                        proof {
                            assert forall|u: VarId| (#[trigger] r.bv().contains(u)) implies floor
                                <= u < self.next || allowed.contains(u) by {
                                assert(u == v || b.bv().contains(u));
                            }
                            nameless_unfold(r, ids);
                            assert forall|u: VarId| (#[trigger] r.fv().contains(u)) implies u
                                < floor || ids.contains(u) by {
                                assert(b.fv().contains(u));
                                if ids.push(v).contains(u) {
                                    let k = choose|k: int|
                                        0 <= k < ids.push(v).len() && ids.push(v)[k] == u;
                                    assert(ids[k] == u);
                                }
                            }
                        }
                        Ok(r)
                    },
                    Err(e) => Err(e),
                }
            },
            Ast::Let(defs, m) => {
                if i < defs.len() {
                    match &defs[i] {
                        Ast::Assign(name, rhs) => {
                            let mut outer: Vec<(String, VarId)> = Vec::new();
                            proof {
                                assert(ctx_names(outer@) =~= Seq::empty());
                                assert(ctx_ids(outer@) =~= Seq::empty());
                                assert(t@->Let_0[i as int] == defs@[i as int]@);
                                assert(wrap_ids_from(rhs@, 0).subset_of(wrap_ids_from(t@, i as int)));
                                assert(wrap_ids_from(t@, i + 1).subset_of(
                                    wrap_ids_from(t@, i as int),
                                ));
                                assert(wrap_ids_from(t@, i as int).contains(0));
                                assert(wrap_ids_from(t@, i as int).contains(1));
                                if name_index(name@) is Some {
                                    assert(wrap_ids_from(t@, i as int).contains(
                                        name_index(name@)->0,
                                    ));
                                }
                            }
                            let term = match self.dump_from(&mut outer, rhs, 0, Ghost(floor), Ghost(allowed)) {
                                Ok(term) => term,
                                Err(e) => {
                                    return Err(e);
                                },
                            };
                            proof {
                                assert forall|v: VarId| (#[trigger] term.fv().contains(v)) implies v
                                    < floor by {}
                            }
                            proof {
                                among_grows(*old(self), *self, floor, allowed);
                            }
                            let ghost mid = *self;
                            match self.push_def(name.clone(), term) {
                                Ok(()) => {},
                                Err(e) => {
                                    return Err(e);
                                },
                            }
                            proof {
                                assert forall|k: int| 0 <= k < self.defs@.len() implies (
                                #[trigger] self.defs@[k]).1.free_below(floor) by {
                                    if k < mid.defs@.len() {
                                        assert(self.defs@.take(mid.defs@.len() as int)[k]
                                            == self.defs@[k]);
                                    } else {
                                        assert(self.defs@[k] == self.defs@.last());
                                    }
                                }
                                assert forall|k: int| 0 <= k < self.defs@.len() implies binders_among(
                                    (#[trigger] self.defs@[k]).1,
                                    floor,
                                    self.next as int,
                                    allowed,
                                ) by {
                                    if k < mid.defs@.len() {
                                        assert(self.defs@.take(mid.defs@.len() as int)[k]
                                            == self.defs@[k]);
                                        assert(binders_among(
                                            mid.defs@[k].1,
                                            floor,
                                            mid.next as int,
                                            allowed,
                                        ));
                                    } else {
                                        assert(self.defs@[k] == self.defs@.last());
                                    }
                                }
                            }
                            let r = self.dump_from(ctx, t, i + 1, Ghost(floor), Ghost(allowed));
                            self.pop_def();
                            proof {
                                assert(self.defs@ =~= old(self).defs@);
                                assert(self.aliases@ =~= old(self).aliases@);
                            }
                            r
                        },
                        _ => {
                            proof {
                                assert(t@->Let_0[i as int] == defs@[i as int]@);
                            }
                            Err(Error::DefNotFound(String::new()))
                        },
                    }
                } else {
                    proof {
                        assert(wrap_ids_from(m@, 0).subset_of(allowed));
                    }
                    self.dump_from(ctx, m, 0, Ghost(floor), Ghost(allowed))
                }
            },
            _ => Err(Error::DefNotFound(String::new())),
        }
    }

    /// Compiles an expression into a term. A name stands for the variable
    /// of the innermost abstraction of that name around it; else for the
    /// term of its latest definition; else for the free variable whose name
    /// it is. Each abstraction binds an identifier that the table has not
    /// given out before and that is the identifier of no name of the
    /// expression: every binder of the result is such a new identifier,
    /// but for the binders that come with the term of a definition. The definitions of a `let` last as long as the
    /// compiling of its body: the table is afterwards what it was.
    pub fn dump(&mut self, t: &Ast) -> (r: Result<Term, Error>)
        requires
            old(self).wf(),
        ensures
            final(self).wf(),
            final(self)@ == old(self)@,
            final(self).defs@ == old(self).defs@,
            final(self).aliases@ == old(self).aliases@,
            final(self).next >= old(self).next,
            r is Ok ==> forall|v: VarId| #[trigger]
                r->Ok_0.bv().contains(v) ==> larger(old(self).next as nat, index_bound(t@)) <= v
                    < final(self).next || old(self).binds(v) || wrap_ids(t@).contains(v),
            if larger(old(self).next as nat, index_bound(t@)) + binders(t@) > usize::MAX {
                r is Err && r->Err_0 is OutOfRange
            } else {
                match denote(t@, old(self)@) {
                    Ok(form) => {
                        &&& r is Ok
                        &&& r->Ok_0@ == form
                        &&& r->Ok_0.wf()
                        &&& r->Ok_0.free_below(final(self).next as int)
                        &&& final(self).next == larger(old(self).next as nat, index_bound(t@))
                            + binders(t@)
                    },
                    Err(Fault::NotFound(x)) => r is Err && r->Err_0 is DefNotFound
                        && r->Err_0->DefNotFound_0@ == x,
                    Err(Fault::TooLarge) => r is Err && r->Err_0 is OutOfRange,
                }
            },
    {
        let (bound, count) = match survey_from(t, 0) {
            Some(found) => found,
            None => {
                return Err(Error::OutOfRange);
            },
        };
        let floor = if bound > self.next {
            bound
        } else {
            self.next
        };
        if count > usize::MAX - floor {
            return Err(Error::OutOfRange);
        }
        proof {
            assert forall|k: int| 0 <= k < self.defs@.len() implies (#[trigger] self.defs@[k]).1.free_below(
                floor as int,
            ) by {}
        }
        self.next = floor;
        let mut ctx: Vec<(String, VarId)> = Vec::new();
        proof {
            assert(ctx_names(ctx@) =~= Seq::empty());
            assert(ctx_ids(ctx@) =~= Seq::empty());
            assert(self@ =~= old(self)@);
        }
        let ghost allowed = Set::new(|v: VarId| old(self).binds(v)).union(wrap_ids(t@));
        proof {
            assert forall|k: int| 0 <= k < self.defs@.len() implies binders_among(
                (#[trigger] self.defs@[k]).1,
                floor as int,
                self.next as int,
                allowed,
            ) by {
                assert forall|v: VarId| (#[trigger] self.defs@[k].1.bv().contains(v)) implies allowed.contains(
                    v,
                ) by {
                    assert(old(self).defs@[k].1.bv().contains(v));
                    assert(old(self).binds(v));
                }
            }
        }
        let r = self.dump_from(&mut ctx, t, 0, Ghost(floor as int), Ghost(allowed));
        proof {
            assert(self@ =~= old(self)@);
        }
        r
    }
}

} // verus!
