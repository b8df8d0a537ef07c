//! Reading data out of terms: numbers, lists and binary numbers in their
//! Church encodings.

use vstd::prelude::*;
use crate::alphabet::{alias_of, get_alias};
use crate::compiler::{find_like, Compiler};
use crate::denote::Scope;
use crate::enc::bool::{choice_form, f, t};
use crate::term::{Body, Term, VarId};
use crate::text::{decimal, push_decimal, push_decimal_wide, push_str};

verus! {

/// How terms are shown.
#[derive(Debug, Clone, Copy)]
pub struct Ui {
    /// Terms are shown under the names and as the data they encode.
    pub readable: bool,
    /// Lists of truth values are shown as binary numbers.
    pub bina_ext: bool,
}

impl Default for Ui {
    fn default() -> (ui: Ui)
        ensures
            ui.readable,
            !ui.bina_ext,
    {
        Ui { readable: true, bina_ext: false }
    }
}

/// The number of times that the variable `f` is applied in `t`, which is
/// `f (f (.. x))`.
pub open spec fn numeral_value(f: VarId, x: VarId, t: Term) -> Option<nat>
    decreases t,
{
    match *t.body {
        Body::App(lhs, rhs) => if *lhs.body == Body::Var(f) {
            match numeral_value(f, x, rhs) {
                Some(n) => Some(n + 1),
                None => None,
            }
        } else {
            None
        },
        Body::Var(v) => if v == x {
            Some(0)
        } else {
            None
        },
        Body::Abs(_, _) => None,
    }
}

/// The number that a term encodes: `n` for `λf. λx. f (f (.. x))` with `n`
/// times `f`, and 1 for `λf. f` as well.
pub open spec fn natural_of(t: Term) -> Option<nat> {
    match *t.body {
        Body::Abs(f, l) => match *l.body {
            Body::Abs(x, b) => numeral_value(f, x, b),
            Body::Var(v) => if v == f {
                Some(1)
            } else {
                None
            },
            _ => None,
        },
        _ => None,
    }
}

/// The items of the list that a term encodes: `λw. w a rest` holds `a` and
/// then the items of `rest`, or `rest` itself where that is no such term.
pub open spec fn list_items(t: Term) -> Option<Seq<Term>>
    decreases t,
{
    match *t.body {
        Body::Abs(w, b) => match *b.body {
            Body::App(pair, rhs) => match *pair.body {
                Body::App(wrap, lhs) => if *wrap.body == Body::Var(w) {
                    Some(
                        seq![lhs] + match list_items(rhs) {
                            Some(tail) => tail,
                            None => seq![rhs],
                        },
                    )
                } else {
                    None
                },
                _ => None,
            },
            _ => None,
        },
        _ => None,
    }
}

/// The number of values of `u128`.
pub open spec fn wide() -> nat {
    (u128::MAX + 1) as nat
}

/// The binary number whose digits the truth values of `list` from place
/// `i` on are, the lowest first, within 128 digits. The digits end before
/// the first item that is no truth value; a list that starts with none
/// encodes no number.
pub open spec fn bits_value(list: Seq<Term>, i: int) -> Option<nat>
    decreases list.len() - i,
{
    if !(0 <= i < list.len()) {
        None
    } else {
        let rest = match bits_value(list, i + 1) {
            Some(v) => v,
            None => 0,
        };
        if list[i]@ == choice_form(true) {
            Some((1 + 2 * rest) % wide())
        } else if list[i]@ == choice_form(false) {
            Some((2 * rest) % wide())
        } else {
            None
        }
    }
}

/// The items of the list that `t` encodes, each as it is shown, with a
/// comma and a space between them.
pub open spec fn list_text(ui: Ui, defs: Scope, t: Term) -> Seq<char>
    decreases t, 0nat,
{
    match *t.body {
        Body::Abs(w, b) => match *b.body {
            Body::App(pair, rhs) => match *pair.body {
                Body::App(wrap, lhs) => formatted(ui, defs, lhs) + seq![',', ' '] + (
                if list_items(rhs) is Some {
                    list_text(ui, defs, rhs)
                } else {
                    formatted(ui, defs, rhs)
                }),
                _ => Seq::empty(),
            },
            _ => Seq::empty(),
        },
        _ => Seq::empty(),
    }
}

/// What a term is shown as where it is known as something:
///
/// - as its plain text, where terms are not to be shown readably;
/// - else under the name of the latest definition that it is
///   alpha-equivalent to;
/// - else, where lists are not read as binary numbers, as the number that
///   it encodes, in decimal;
/// - else, where it encodes a list, as the binary number whose digits the
///   list holds, in decimal, or as its items in square brackets.
pub open spec fn beautified(ui: Ui, defs: Scope, t: Term) -> Option<Seq<char>>
    decreases t, 1nat,
{
    if !ui.readable {
        Some(t.show())
    } else if find_like(defs, t@) is Some {
        Some(defs[find_like(defs, t@)->0].0)
    } else if !ui.bina_ext {
        match natural_of(t) {
            Some(n) => if n <= usize::MAX {
                Some(decimal(n))
            } else {
                None
            },
            None => None,
        }
    } else {
        match list_items(t) {
            Some(items) => match bits_value(items, 0) {
                Some(b) => Some(decimal(b)),
                None => Some(seq!['['] + list_text(ui, defs, t) + seq![']']),
            },
            None => None,
        }
    }
}

/// What a term is shown as: what it is known as, where it is known as
/// something; else a variable is the name of its identifier, an application
/// is its two parts with a space between, the second in round brackets
/// where it is no variable and is known as nothing, and an abstraction is
/// `λ`, the name of its variable, a dot and its body in round brackets.
pub open spec fn formatted(ui: Ui, defs: Scope, t: Term) -> Seq<char>
    decreases t, 2nat,
{
    match beautified(ui, defs, t) {
        Some(s) => s,
        None => match *t.body {
            Body::Var(id) => alias_of(id as nat),
            Body::App(m, x) => formatted(ui, defs, m) + seq![' '] + (match beautified(
                ui,
                defs,
                x,
            ) {
                Some(s) => s,
                None => if *x.body is Var {
                    formatted(ui, defs, x)
                } else {
                    seq!['('] + formatted(ui, defs, x) + seq![')']
                },
            }),
            Body::Abs(v, l) => seq!['λ'] + alias_of(v as nat) + seq!['.', '('] + formatted(
                ui,
                defs,
                l,
            ) + seq![')'],
        },
    }
}

/// A term shown structurally down to `lvl` levels, and as `formatted`
/// shows it below them. Here the marker of an abstraction is `󰘧`.
pub open spec fn formatted_in_level(ui: Ui, defs: Scope, t: Term, lvl: nat) -> Seq<char>
    decreases t,
{
    if lvl == 0 {
        formatted(ui, defs, t)
    } else {
        match *t.body {
            Body::Var(id) => alias_of(id as nat),
            Body::App(lhs, rhs) => formatted_in_level(ui, defs, lhs, (lvl - 1) as nat) + seq![' ']
                + formatted_in_level(ui, defs, rhs, (lvl - 1) as nat),
            Body::Abs(v, l) => seq!['󰘧'] + alias_of(v as nat) + seq!['.', '('] + formatted_in_level(
                ui,
                defs,
                l,
                (lvl - 1) as nat,
            ) + seq![')'],
        }
    }
}

/// The list of the binary digits of `n`, the lowest first, in source
/// text: `(Cons True (Cons False Nil))` and the like; the digits end with
/// a `False`.
pub open spec fn bin_list_text(n: nat) -> Seq<char>
    decreases n,
{
    if n == 0 {
        "(Cons False Nil)"@
    } else {
        "(Cons "@ + (if n % 2 == 1 {
            "True"@
        } else {
            "False"@
        }) + " "@ + bin_list_text(n / 2) + ")"@
    }
}

fn push_bin_list(out: &mut String, n: usize)
    ensures
        final(out)@ == old(out)@ + bin_list_text(n as nat),
    decreases n,
{
    if n == 0 {
        out.append("(Cons False Nil)");
    } else {
        out.append("(Cons ");
        if n % 2 == 1 {
            out.append("True");
        } else {
            out.append("False");
        }
        out.append(" ");
        push_bin_list(out, n / 2);
        out.append(")");
        assert(out@ =~= old(out)@ + bin_list_text(n as nat));
    }
}

/// The number `n` as the source text of the list of its binary digits.
pub fn num_to_bin_list(n: usize) -> (s: String)
    ensures
        s@ == bin_list_text(n as nat),
{
    let mut s = String::new();
    push_bin_list(&mut s, n);
    assert(s@ =~= bin_list_text(n as nat));
    s
}

fn get_natural(f: VarId, x: VarId, s: &Term) -> (r: Option<usize>)
    ensures
        match numeral_value(f, x, *s) {
            Some(n) => if n <= usize::MAX {
                r == Some(n as usize)
            } else {
                r is None
            },
            None => r is None,
        },
    decreases s,
{
    match &*s.body {
        Body::App(lhs, rhs) => {
            let head = match &*lhs.body {
                Body::Var(v) => *v == f,
                _ => false,
            };
            if head {
                match get_natural(f, x, rhs) {
                    Some(n) => n.checked_add(1),
                    None => None,
                }
            } else {
                None
            }
        },
        Body::Var(v) => if *v == x {
            Some(0)
        } else {
            None
        },
        Body::Abs(_, _) => None,
    }
}

fn bits_from(list: &[Term], i: usize) -> (r: Option<u128>)
    requires
        forall|k: int| 0 <= k < list@.len() ==> (#[trigger] list@[k]).wf(),
    ensures
        match bits_value(list@, i as int) {
            Some(v) => r == Some(v as u128),
            None => r is None,
        },
    decreases list@.len() - i,
{
    if i >= list.len() {
        return None;
    }
    let rest: u128 = match bits_from(list, i + 1) {
        Some(v) => v,
        None => 0,
    };
    let doubled: u128 = if rest >= 0x8000_0000_0000_0000_0000_0000_0000_0000 {
        (rest - 0x8000_0000_0000_0000_0000_0000_0000_0000) * 2
    } else {
        rest * 2
    };
    proof {
        let w = wide() as int;
        let twice = 2 * rest as int;
        assert(w == 2 * 0x8000_0000_0000_0000_0000_0000_0000_0000);
        if twice < w {
            vstd::arithmetic::div_mod::lemma_small_mod(twice as nat, w as nat);
            vstd::arithmetic::div_mod::lemma_small_mod((1 + twice) as nat, w as nat);
        } else {
            vstd::arithmetic::div_mod::lemma_small_mod((twice - w) as nat, w as nat);
            vstd::arithmetic::div_mod::lemma_small_mod((1 + twice - w) as nat, w as nat);
            vstd::arithmetic::div_mod::lemma_mod_sub_multiples_vanish(twice, w);
            vstd::arithmetic::div_mod::lemma_mod_sub_multiples_vanish(1 + twice, w);
        }
        assert(doubled == (2 * rest) % w);
        assert((1 + doubled) == (1 + 2 * rest) % w);
    }
    if list[i].alpha_eq(&Ui::get_true()) {
        Some(1 + doubled)
    } else if list[i].alpha_eq(&Ui::get_false()) {
        Some(doubled)
    } else {
        None
    }
}

impl Ui {
    /// The number that `s` encodes, where it encodes one that fits the
    /// machine's range.
    pub fn natural_from_church_encoding(s: &Term) -> (r: Option<usize>)
        ensures
            match natural_of(*s) {
                Some(n) => if n <= usize::MAX {
                    r == Some(n as usize)
                } else {
                    r is None
                },
                None => r is None,
            },
    {
        match &*s.body {
            Body::Abs(f, l) => match &*l.body {
                Body::Abs(x, b) => get_natural(*f, *x, b),
                Body::Var(v) => if *v == *f {
                    Some(1)
                } else {
                    None
                },
                _ => None,
            },
            _ => None,
        }
    }

    /// The items of the list that `b` encodes.
    pub fn from_list(b: &Term) -> (r: Option<Vec<Term>>)
        ensures
            match list_items(*b) {
                Some(items) => r is Some && r->0@ == items,
                None => r is None,
            },
            b.wf() && r is Some ==> forall|k: int|
                0 <= k < r->0@.len() ==> (#[trigger] r->0@[k]).wf(),
        decreases b,
    {
        match &*b.body {
            Body::Abs(wrapper, body) => match &*body.body {
                Body::App(pair, rhs) => match &*pair.body {
                    Body::App(wrap, lhs) => {
                        let head = match &*wrap.body {
                            Body::Var(v) => *v == *wrapper,
                            _ => false,
                        };
                        if head {
                            let mut v: Vec<Term> = Vec::new();
                            v.push(lhs.clone());
                            proof {
                                if b.wf() {
                                    assert(body.wf());
                                    assert(pair.wf());
                                    assert(lhs.wf() && rhs.wf());
                                }
                            }
                            match Ui::from_list(rhs) {
                                Some(tail) => {
                                    let mut tail = tail;
                                    let ghost items = tail@;
                                    v.append(&mut tail);
                                    assert(v@ =~= seq![*lhs] + items);
                                },
                                None => {
                                    v.push(rhs.clone());
                                    assert(v@ =~= seq![*lhs] + seq![*rhs]);
                                },
                            }
                            Some(v)
                        } else {
                            None
                        }
                    },
                    _ => None,
                },
                _ => None,
            },
            _ => None,
        }
    }

    /// The truth value `true`.
    pub fn get_true() -> (r: Term)
        ensures
            r@ == choice_form(true),
            r.wf(),
    {
        t()
    }

    /// The truth value `false`.
    pub fn get_false() -> (r: Term)
        ensures
            r@ == choice_form(false),
            r.wf(),
    {
        f()
    }

    /// The binary number whose digits the truth values of `list` are, the
    /// lowest first.
    pub fn from_binary_number(list: &[Term]) -> (r: Option<u128>)
        requires
            forall|k: int| 0 <= k < list@.len() ==> (#[trigger] list@[k]).wf(),
        ensures
            match bits_value(list@, 0) {
                Some(v) => r == Some(v as u128),
                None => r is None,
            },
    {
        bits_from(list, 0)
    }
}

impl Ui {
    fn list_into(&self, s: &Compiler, t: &Term, out: &mut String)
        requires
            s.wf(),
            t.wf(),
            t.size() <= usize::MAX,
            list_items(*t) is Some,
        ensures
            final(out)@ == old(out)@ + list_text(*self, s@, *t),
        decreases t, 0nat,
    {
        match &*t.body {
            Body::Abs(_, b) => match &*b.body {
                Body::App(pair, rhs) => match &*pair.body {
                    Body::App(_, lhs) => {
                        proof {
                            assert(b.wf());
                            assert(pair.wf() && rhs.wf());
                            assert(lhs.wf());
                            assert(t.size() == 1 + b.size());
                            assert(b.size() == 1 + pair.size() + rhs.size());
                            assert(pair.size() > lhs.size());
                        }
                        let head = self.format_value(s, lhs);
                        push_str(out, head.as_str());
                        out.push(',');
                        out.push(' ');
                        if Ui::from_list(rhs).is_some() {
                            self.list_into(s, rhs, out);
                        } else {
                            let tail = self.format_value(s, rhs);
                            push_str(out, tail.as_str());
                        }
                        assert(out@ =~= old(out)@ + list_text(*self, s@, *t));
                    },
                    _ => {},
                },
                _ => {},
            },
            _ => {},
        }
    }

    /// What `t` is shown as where it is known as something: by a name of
    /// the table `s`, or as the number or the list that it encodes.
    pub fn beautify(&self, s: &Compiler, t: &Term) -> (r: Option<String>)
        requires
            s.wf(),
            t.wf(),
            t.size() <= usize::MAX,
        ensures
            match beautified(*self, s@, *t) {
                Some(text) => r is Some && r->0@ == text,
                None => r is None,
            },
        decreases t, 1nat,
    {
        if !self.readable {
            return Some(t.to_string());
        }
        match s.get_like(t) {
            Some(alias) => {
                return Some(alias.clone());
            },
            None => {},
        }
        if !self.bina_ext {
            match Ui::natural_from_church_encoding(t) {
                Some(n) => {
                    let mut text = String::new();
                    push_decimal(&mut text, n);
                    assert(text@ =~= decimal(n as nat));
                    Some(text)
                },
                None => None,
            }
        } else {
            match Ui::from_list(t) {
                Some(v) => {
                    let mut text = String::new();
                    match Ui::from_binary_number(v.as_slice()) {
                        Some(b) => {
                            push_decimal_wide(&mut text, b);
                            assert(text@ =~= decimal(b as nat));
                        },
                        None => {
                            text.push('[');
                            self.list_into(s, t, &mut text);
                            text.push(']');
                            assert(text@ =~= seq!['['] + list_text(*self, s@, *t) + seq![']']);
                        },
                    }
                    Some(text)
                },
                None => None,
            }
        }
    }

    /// What `t` is shown as, under the names of the table `s`.
    pub fn format_value(&self, s: &Compiler, t: &Term) -> (r: String)
        requires
            s.wf(),
            t.wf(),
            t.size() <= usize::MAX,
        ensures
            r@ == formatted(*self, s@, *t),
        decreases t, 2nat,
    {
        match self.beautify(s, t) {
            Some(text) => {
                return text;
            },
            None => {},
        }
        let mut out = String::new();
        match &*t.body {
            Body::Var(id) => {
                let name = get_alias(*id);
                push_str(&mut out, name.as_str());
                assert(out@ =~= formatted(*self, s@, *t));
            },
            Body::App(m, x) => {
                let head = self.format_value(s, m);
                push_str(&mut out, head.as_str());
                out.push(' ');
                match self.beautify(s, x) {
                    Some(text) => {
                        push_str(&mut out, text.as_str());
                    },
                    None => {
                        let bare = match &*x.body {
                            Body::Var(_) => true,
                            _ => false,
                        };
                        let inner = self.format_value(s, x);
                        if bare {
                            push_str(&mut out, inner.as_str());
                        } else {
                            out.push('(');
                            push_str(&mut out, inner.as_str());
                            out.push(')');
                        }
                    },
                }
                assert(out@ =~= formatted(*self, s@, *t));
            },
            Body::Abs(v, l) => {
                out.push('λ');
                let name = get_alias(*v);
                push_str(&mut out, name.as_str());
                out.push('.');
                out.push('(');
                let inner = self.format_value(s, l);
                push_str(&mut out, inner.as_str());
                out.push(')');
                assert(out@ =~= formatted(*self, s@, *t));
            },
        }
        out
    }

    /// `t` shown structurally down to `lvl` levels, and as `format_value`
    /// shows it below them.
    pub fn format_in_level(&self, s: &Compiler, t: &Term, lvl: usize) -> (r: String)
        requires
            s.wf(),
            t.wf(),
            t.size() <= usize::MAX,
        ensures
            r@ == formatted_in_level(*self, s@, *t, lvl as nat),
        decreases t,
    {
        if lvl == 0 {
            return self.format_value(s, t);
        }
        let mut out = String::new();
        match &*t.body {
            Body::Var(id) => {
                let name = get_alias(*id);
                push_str(&mut out, name.as_str());
                assert(out@ =~= formatted_in_level(*self, s@, *t, lvl as nat));
            },
            Body::App(lhs, rhs) => {
                let left = self.format_in_level(s, lhs, lvl - 1);
                let right = self.format_in_level(s, rhs, lvl - 1);
                push_str(&mut out, left.as_str());
                out.push(' ');
                push_str(&mut out, right.as_str());
                assert(out@ =~= formatted_in_level(*self, s@, *t, lvl as nat));
            },
            Body::Abs(v, l) => {
                out.push('󰘧');
                let name = get_alias(*v);
                push_str(&mut out, name.as_str());
                out.push('.');
                out.push('(');
                let inner = self.format_in_level(s, l, lvl - 1);
                push_str(&mut out, inner.as_str());
                out.push(')');
                assert(out@ =~= formatted_in_level(*self, s@, *t, lvl as nat));
            },
        }
        out
    }
}

} // verus!
