//! The former: the pass between lexer and parser that writes out, as round
//! brackets, the groups that the layout of the source implies.

use vstd::prelude::*;
use crate::token::{spanned_view, tokens_view, ParserToken, Token, TokenView};

verus! {

/// A group that the former has opened and not yet closed.
#[derive(Debug, Clone, Copy, PartialEq, Eq, Structural)]
pub enum Implicit {
    /// The body of an abstraction.
    Fn,
    /// The definitions of a `let`.
    Let,
    /// The body of a `let`, after its `in`.
    In,
}

/// The state of the former as contracts see it: the open groups, the
/// innermost last, and the tokens written so far.
pub struct FormState {
    pub stack: Seq<Implicit>,
    pub buf: Seq<(int, TokenView, int)>,
}

impl FormState {
    /// A token of the former's own is written. It stands where the token
    /// before it ends.
    pub open spec fn push_meta(self, tk: TokenView) -> FormState
        recommends
            self.buf.len() > 0,
    {
        let at = self.buf.last().2;
        FormState { stack: self.stack, buf: self.buf.push((at, tk, at)) }
    }

    /// The innermost group is closed: a closing bracket is written and the
    /// group leaves the stack.
    pub open spec fn close_top(self) -> FormState
        recommends
            self.stack.len() > 0,
            self.buf.len() > 0,
    {
        FormState { stack: self.stack.drop_last(), buf: self.push_meta(TokenView::CloseParen).buf }
    }

    /// Groups are closed from the innermost on until a group of kind `ty`
    /// is the innermost, or none is left.
    pub open spec fn goto(self, ty: Implicit) -> FormState
        decreases self.stack.len(),
    {
        if self.stack.len() == 0 || self.stack.last() == ty {
            self
        } else {
            self.close_top().goto(ty)
        }
    }

    /// Groups are closed up to the nearest of kind `ty`, which leaves the
    /// stack without a bracket.
    pub open spec fn finish(self, ty: Implicit) -> FormState {
        let at = self.goto(ty);
        if at.stack.len() == 0 {
            at
        } else {
            FormState { stack: at.stack.drop_last(), buf: at.buf }
        }
    }

    /// Every open group is closed.
    pub open spec fn finish_all(self) -> FormState
        decreases self.stack.len(),
    {
        if self.stack.len() == 0 {
            self
        } else {
            self.close_top().finish_all()
        }
    }

    /// A group of kind `ty` is opened with an opening bracket.
    pub open spec fn push_depth(self, ty: Implicit) -> FormState
        recommends
            self.buf.len() > 0,
    {
        FormState {
            stack: self.stack.push(ty),
            buf: self.push_meta(TokenView::OpenParen).buf,
        }
    }

    /// A token of the source is written as it is.
    pub open spec fn emit(self, tk: (int, TokenView, int)) -> FormState {
        FormState { stack: self.stack, buf: self.buf.push(tk) }
    }

    /// The state after the token `tk` of the source, which `next` follows:
    ///
    /// - a tab is dropped, and so is a newline before a newline or a tab;
    /// - any other newline closes every open group;
    /// - `let` is written and opens a group of definitions;
    /// - a comma closes the groups inside the definitions, and is written;
    /// - `in` closes the groups inside the definitions and the definitions,
    ///   is written, and opens a bracketed group for the body;
    /// - the separator of an abstraction is written and opens a bracketed
    ///   group for the body;
    /// - any other token is written as it is.
    pub open spec fn feed(self, tk: (int, TokenView, int), next: Option<TokenView>) -> FormState {
        match tk.1 {
            TokenView::Tab => self,
            TokenView::NewLine => if next == Some(TokenView::NewLine) || next == Some(
                TokenView::Tab,
            ) {
                self
            } else {
                self.finish_all()
            },
            TokenView::LetKw => FormState {
                stack: self.stack.push(Implicit::Let),
                buf: self.buf.push(tk),
            },
            TokenView::Comma => self.goto(Implicit::Let).emit(tk),
            TokenView::InKw => self.finish(Implicit::Let).emit(tk).push_depth(Implicit::In),
            TokenView::Dot => self.emit(tk).push_depth(Implicit::Fn),
            _ => self.emit(tk),
        }
    }

    /// The state after the tokens of `input` from place `i` on, and the
    /// closing of every group at the end.
    pub open spec fn run(self, input: Seq<(int, TokenView, int)>, i: int) -> FormState
        decreases input.len() - i,
    {
        if !(0 <= i < input.len()) {
            self.finish_all()
        } else {
            let next = if i + 1 < input.len() {
                Some(input[i + 1].1)
            } else {
                None
            };
            self.feed(input[i], next).run(input, i + 1)
        }
    }

    /// Where a group is open, a token has been written.
    pub open spec fn wf(self) -> bool {
        self.stack.len() > 0 ==> self.buf.len() > 0
    }
}

/// The tokens of `input` with the implied groups written out as brackets.
pub open spec fn formed(input: Seq<(int, TokenView, int)>) -> Seq<(int, TokenView, int)> {
    (FormState { stack: Seq::empty(), buf: Seq::empty() }).run(input, 0).buf
}

/// The former at work: the groups that are open, the tokens written, and
/// the tokens of the source with the place of the next one to read.
pub struct Form {
    pub stack: Vec<Implicit>,
    pub buf: Vec<ParserToken>,
    pub it: Vec<ParserToken>,
    pub pos: usize,
}

impl Form {
    /// The open groups and the tokens written so far.
    pub open spec fn state(self) -> FormState {
        FormState { stack: self.stack@, buf: tokens_view(self.buf@) }
    }

    /// A former that has read nothing of `tokens` yet.
    pub fn new(tokens: Vec<ParserToken>) -> (f: Form)
        ensures
            f.it == tokens,
            f.pos == 0,
            f.stack@ == Seq::<Implicit>::empty(),
            f.buf@ == Seq::<ParserToken>::empty(),
    {
        Form { stack: Vec::new(), buf: Vec::new(), it: tokens, pos: 0 }
    }

    /// Reads the tokens of the source that are left and writes them out
    /// with the implied groups in brackets; at the end every group is
    /// closed.
    pub fn set(&mut self)
        requires
            old(self).state().wf(),
            old(self).pos <= old(self).it.len(),
        ensures
            final(self).state() == old(self).state().run(
                tokens_view(old(self).it@),
                old(self).pos as int,
            ),
            final(self).stack@.len() == 0,
            final(self).it == old(self).it,
            final(self).pos == old(self).it.len(),
    {
        let ghost input = tokens_view(self.it@);
        while self.pos < self.it.len()
            invariant
                self.it == old(self).it,
                input == tokens_view(self.it@),
                self.pos <= self.it.len(),
                self.state().wf(),
                self.state().run(input, self.pos as int) == old(self).state().run(
                    input,
                    old(self).pos as int,
                ),
            decreases self.it.len() - self.pos,
        {
            let i = self.pos;
            let ghost before = self.state();
            let ghost next = if i + 1 < input.len() {
                Some(input[i + 1].1)
            } else {
                None
            };
            let blank_after = i + 1 < self.it.len() && match &self.it[i + 1].1 {
                Token::NewLine => true,
                Token::Tab => true,
                _ => false,
            };
            assert(blank_after == (next == Some(TokenView::NewLine) || next == Some(
                TokenView::Tab,
            )));
            let tk = (self.it[i].0, self.it[i].1.clone(), self.it[i].2);
            assert(spanned_view(tk) == input[i as int]);
            self.pos = i + 1;
            match &tk.1 {
                Token::Tab => {},
                Token::NewLine => {
                    if !blank_after {
                        self.finish_all();
                    }
                },
                Token::LetKw => {
                    self.emit(tk);
                    self.stack.push(Implicit::Let);
                },
                Token::Comma => {
                    self.goto(Implicit::Let);
                    self.emit(tk);
                },
                Token::InKw => {
                    self.finish(Implicit::Let);
                    self.emit(tk);
                    self.push_depth(Implicit::In);
                },
                Token::Dot => {
                    self.emit(tk);
                    self.push_depth(Implicit::Fn);
                },
                _ => {
                    self.emit(tk);
                },
            }
            assert(self.state() == before.feed(input[i as int], next));
        }
        self.finish_all();
    }

    fn emit(&mut self, tk: ParserToken)
        ensures
            final(self).state() == old(self).state().emit(spanned_view(tk)),
            final(self).it == old(self).it,
            final(self).pos == old(self).pos,
            final(self).stack == old(self).stack,
    {
        proof {
            assert(tokens_view(self.buf@.push(tk)) =~= tokens_view(self.buf@).push(
                spanned_view(tk),
            ));
        }
        self.buf.push(tk);
    }

    /// Closes groups from the innermost on until a group of kind `ty` is
    /// the innermost, or none is left.
    pub fn goto(&mut self, ty: Implicit)
        requires
            old(self).state().wf(),
        ensures
            final(self).state() == old(self).state().goto(ty),
            final(self).state().wf(),
            final(self).it == old(self).it,
            final(self).pos == old(self).pos,
    {
        while self.stack.len() > 0 && self.stack[self.stack.len() - 1] != ty
            invariant
                self.state().wf(),
                self.state().goto(ty) == old(self).state().goto(ty),
                self.it == old(self).it,
                self.pos == old(self).pos,
            decreases self.stack.len(),
        {
            self.push_meta(Token::CloseParen);
            self.stack.pop();
        }
    }

    /// Closes groups up to the nearest of kind `ty`, and takes that one off
    /// the stack without a bracket.
    pub fn finish(&mut self, ty: Implicit)
        requires
            old(self).state().wf(),
        ensures
            final(self).state() == old(self).state().finish(ty),
            final(self).buf.len() >= old(self).buf.len(),
            final(self).it == old(self).it,
            final(self).pos == old(self).pos,
    {
        let ghost n = self.buf.len();
        self.goto(ty);
        proof {
            old(self).state().goto_keeps(ty);
        }
        self.stack.pop();
        proof {
            if old(self).state().goto(ty).stack.len() == 0 {
                assert(self.stack@ =~= old(self).state().goto(ty).stack);
            }
        }
    }

    /// Closes every open group.
    pub fn finish_all(&mut self)
        requires
            old(self).state().wf(),
        ensures
            final(self).state() == old(self).state().finish_all(),
            final(self).stack@.len() == 0,
            final(self).it == old(self).it,
            final(self).pos == old(self).pos,
    {
        while self.stack.len() > 0
            invariant
                self.state().wf(),
                self.state().finish_all() == old(self).state().finish_all(),
                self.it == old(self).it,
                self.pos == old(self).pos,
            decreases self.stack.len(),
        {
            self.push_meta(Token::CloseParen);
            self.stack.pop();
        }
    }

    /// Opens a group of kind `ty` with an opening bracket.
    pub fn push_depth(&mut self, ty: Implicit)
        requires
            old(self).buf.len() > 0,
        ensures
            final(self).state() == old(self).state().push_depth(ty),
            final(self).it == old(self).it,
            final(self).pos == old(self).pos,
    {
        self.push_meta(Token::OpenParen);
        self.stack.push(ty);
    }

    /// Writes a token of the former's own, at the place where the token
    /// before it ends.
    pub fn push_meta(&mut self, tk: Token)
        requires
            old(self).buf.len() > 0,
        ensures
            final(self).state() == old(self).state().push_meta(tk@),
            final(self).stack == old(self).stack,
            final(self).it == old(self).it,
            final(self).pos == old(self).pos,
    {
        let last_sp = self.buf[self.buf.len() - 1].2;
        proof {
            let item = (last_sp, tk, last_sp);
            assert(tokens_view(self.buf@.push(item)) =~= tokens_view(self.buf@).push(
                spanned_view(item),
            ));
            assert(tokens_view(self.buf@).last() == spanned_view(self.buf@.last()));
        }
        self.buf.push((last_sp, tk, last_sp));
    }
}

impl FormState {
    /// Closing groups takes no token away.
    pub proof fn goto_keeps(self, ty: Implicit)
        ensures
            self.goto(ty).buf.len() >= self.buf.len(),
        decreases self.stack.len(),
    {
        if !(self.stack.len() == 0 || self.stack.last() == ty) {
            self.close_top().goto_keeps(ty);
        }
    }
}

/// Writes out the groups that the layout of `tokens` implies: the result
/// holds the tokens of the source but tabs and newlines, and a bracket
/// wherever a group opens or closes.
pub fn form(tokens: Vec<ParserToken>) -> (out: Vec<ParserToken>)
    ensures
        tokens_view(out@) == formed(tokens_view(tokens@)),
{
    let mut form = Form::new(tokens);
    assert(form.state().stack =~= Seq::empty());
    assert(form.state().buf =~= Seq::empty());
    form.set();
    form.buf
}

} // verus!
