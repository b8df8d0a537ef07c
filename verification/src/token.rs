//! The tokens of the source language.

use vstd::prelude::*;
use crate::text::push_str;

verus! {

/// A token of the source language.
#[derive(Debug, PartialEq, Eq)]
pub enum Token {
    /// The marker of an abstraction: `λ` or `\`.
    Lambda,
    /// The separator between the variable of an abstraction and its body:
    /// `.` or `->`.
    Dot,
    OpenParen,
    CloseParen,
    /// An identifier, with its text.
    Ident(String),
    NewLine,
    Tab,
    /// The sign `=` of a definition.
    Assign,
    UseKw,
    LetKw,
    InKw,
    Comma,
    /// A path between double quotes, with the text between them.
    Path(String),
}

/// A token as contracts see it: with the characters of its text.
pub enum TokenView {
    Lambda,
    Dot,
    OpenParen,
    CloseParen,
    Ident(Seq<char>),
    NewLine,
    Tab,
    Assign,
    UseKw,
    LetKw,
    InKw,
    Comma,
    Path(Seq<char>),
}

/// A token between the place where it starts in the source and the place
/// where it ends, both counted in bytes.
pub type ParserToken = (usize, Token, usize);

impl View for Token {
    type V = TokenView;

    open spec fn view(&self) -> TokenView {
        match self {
            Token::Lambda => TokenView::Lambda,
            Token::Dot => TokenView::Dot,
            Token::OpenParen => TokenView::OpenParen,
            Token::CloseParen => TokenView::CloseParen,
            Token::Ident(s) => TokenView::Ident(s@),
            Token::NewLine => TokenView::NewLine,
            Token::Tab => TokenView::Tab,
            Token::Assign => TokenView::Assign,
            Token::UseKw => TokenView::UseKw,
            Token::LetKw => TokenView::LetKw,
            Token::InKw => TokenView::InKw,
            Token::Comma => TokenView::Comma,
            Token::Path(s) => TokenView::Path(s@),
        }
    }
}

impl Clone for Token {
    fn clone(&self) -> (r: Self)
        ensures
            r@ == self@,
    {
        match self {
            Token::Lambda => Token::Lambda,
            Token::Dot => Token::Dot,
            Token::OpenParen => Token::OpenParen,
            Token::CloseParen => Token::CloseParen,
            Token::Ident(s) => Token::Ident(s.clone()),
            Token::NewLine => Token::NewLine,
            Token::Tab => Token::Tab,
            Token::Assign => Token::Assign,
            Token::UseKw => Token::UseKw,
            Token::LetKw => Token::LetKw,
            Token::InKw => Token::InKw,
            Token::Comma => Token::Comma,
            Token::Path(s) => Token::Path(s.clone()),
        }
    }
}

/// A token with its span, as contracts see it.
pub open spec fn spanned_view(t: ParserToken) -> (int, TokenView, int) {
    (t.0 as int, t.1@, t.2 as int)
}

/// A sequence of tokens with their spans, as contracts see it.
pub open spec fn tokens_view(tokens: Seq<ParserToken>) -> Seq<(int, TokenView, int)> {
    tokens.map_values(|t: ParserToken| spanned_view(t))
}

impl TokenView {
    /// The text that a token is written as.
    pub open spec fn lexeme(self) -> Seq<char> {
        match self {
            TokenView::Lambda => seq!['λ'],
            TokenView::Dot => seq!['.'],
            TokenView::OpenParen => seq!['('],
            TokenView::CloseParen => seq![')'],
            TokenView::Ident(s) => s,
            TokenView::NewLine => seq!['\n'],
            TokenView::Tab => seq!['\t'],
            TokenView::Assign => seq!['='],
            TokenView::UseKw => seq!['u', 's', 'e'],
            TokenView::LetKw => seq!['l', 'e', 't'],
            TokenView::InKw => seq!['i', 'n'],
            TokenView::Comma => seq![','],
            TokenView::Path(s) => s,
        }
    }
}

/// The tokens written out one after the other, a space after each.
pub open spec fn rebuilt(tokens: Seq<ParserToken>) -> Seq<char>
    decreases tokens.len(),
{
    if tokens.len() == 0 {
        Seq::empty()
    } else {
        rebuilt(tokens.drop_last()) + tokens.last().1@.lexeme() + seq![' ']
    }
}

impl Token {
    /// Appends the text of the token to `out`.
    pub fn write_to(&self, out: &mut String)
        ensures
            final(out)@ == old(out)@ + self@.lexeme(),
    {
        match self {
            Token::Lambda => out.push('λ'),
            Token::Dot => out.push('.'),
            Token::OpenParen => out.push('('),
            Token::CloseParen => out.push(')'),
            Token::Ident(s) => push_str(out, s.as_str()),
            Token::NewLine => out.push('\n'),
            Token::Tab => out.push('\t'),
            Token::Assign => out.push('='),
            Token::UseKw => {
                out.push('u');
                out.push('s');
                out.push('e');
            },
            Token::LetKw => {
                out.push('l');
                out.push('e');
                out.push('t');
            },
            Token::InKw => {
                out.push('i');
                out.push('n');
            },
            Token::Comma => out.push(','),
            Token::Path(s) => push_str(out, s.as_str()),
        }
        assert(out@ =~= old(out)@ + self@.lexeme());
    }

    /// Source text from tokens: the text of each token, a space after each.
    pub fn rebuild_code(tokens: &[ParserToken]) -> (buf: String)
        ensures
            buf@ == rebuilt(tokens@),
    {
        let mut buf = String::new();
        let mut i: usize = 0;
        assert(tokens@.take(0) =~= Seq::empty());
        while i < tokens.len()
            invariant
                i <= tokens.len(),
                buf@ == rebuilt(tokens@.take(i as int)),
            decreases tokens.len() - i,
        {
            let ghost before = buf@;
            tokens[i].1.write_to(&mut buf);
            buf.push(' ');
            proof {
                let next = tokens@.take(i + 1);
                assert(next.drop_last() =~= tokens@.take(i as int));
                assert(next.last() == tokens@[i as int]);
                assert(buf@ =~= before + tokens@[i as int].1@.lexeme() + seq![' ']);
            }
            i = i + 1;
        }
        assert(tokens@.take(tokens.len() as int) =~= tokens@);
        buf
    }
}

} // verus!
