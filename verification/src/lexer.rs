//! From source text to tokens. A token holds the places where it starts
//! and ends in the text, counted in the bytes of its UTF-8 form.

use vstd::prelude::*;
use vstd::utf8::{char_is_scalar, encode_scalar, encode_utf8};
use crate::error::Error;
use crate::text::chars_of;
use crate::token::{spanned_view, tokens_view, ParserToken, Token, TokenView};

verus! {

/// A character of an identifier: a Latin letter, a digit, the underscore,
/// or a Greek letter but lambda.
pub open spec fn is_ident_char(c: char) -> bool {
    ||| 'a' <= c <= 'z'
    ||| 'A' <= c <= 'Z'
    ||| '0' <= c <= '9'
    ||| c == '_'
    ||| 'α' <= c <= 'κ'
    ||| 'μ' <= c <= 'ω'
    ||| 'Α' <= c <= 'Κ'
    ||| 'Μ' <= c <= 'Ω'
}

/// Where the run of identifier characters from `i` on ends.
pub open spec fn ident_end(s: Seq<char>, i: int) -> int
    decreases s.len() - i,
{
    if 0 <= i < s.len() && is_ident_char(s[i]) {
        ident_end(s, i + 1)
    } else {
        i
    }
}

/// Where the line that holds place `i` ends: at the next newline, or at the
/// end of the text.
pub open spec fn line_end(s: Seq<char>, i: int) -> int
    decreases s.len() - i,
{
    if 0 <= i < s.len() && s[i] != '\n' {
        line_end(s, i + 1)
    } else {
        i
    }
}

/// The place of the double quote that closes a path whose text starts at
/// `i`. Inside a path a backslash stands only before a backslash or a double
/// quote. `None` where the path is not closed or a backslash stands before
/// something else.
pub open spec fn path_end(s: Seq<char>, i: int) -> Option<int>
    decreases s.len() - i,
{
    if !(0 <= i < s.len()) {
        None
    } else if s[i] == '"' {
        Some(i)
    } else if s[i] == '\\' {
        if i + 1 < s.len() && (s[i + 1] == '\\' || s[i + 1] == '"') {
            path_end(s, i + 2)
        } else {
            None
        }
    } else {
        path_end(s, i + 1)
    }
}

/// The token of a run of identifier characters: a keyword where the run is
/// one exactly, an identifier else.
pub open spec fn word(text: Seq<char>) -> TokenView {
    if text == seq!['u', 's', 'e'] {
        TokenView::UseKw
    } else if text == seq!['l', 'e', 't'] {
        TokenView::LetKw
    } else if text == seq!['i', 'n'] {
        TokenView::InKw
    } else {
        TokenView::Ident(text)
    }
}

/// What stands at a place of the source.
pub enum Lexeme {
    /// Blank space or a comment, up to the given place.
    Skip(int),
    /// A token, up to the given place.
    Tok(TokenView, int),
    /// Nothing that the language knows.
    Bad,
}

/// What stands at place `i` of the source `s`.
pub open spec fn lexeme_at(s: Seq<char>, i: int) -> Lexeme
    recommends
        0 <= i < s.len(),
{
    let c = s[i];
    if c == ' ' || c == '\x0c' {
        Lexeme::Skip(i + 1)
    } else if c == '#' {
        Lexeme::Skip(line_end(s, i + 1))
    } else if c == 'λ' || c == '\\' {
        Lexeme::Tok(TokenView::Lambda, i + 1)
    } else if c == '.' {
        Lexeme::Tok(TokenView::Dot, i + 1)
    } else if c == '-' {
        if i + 1 < s.len() && s[i + 1] == '>' {
            Lexeme::Tok(TokenView::Dot, i + 2)
        } else {
            Lexeme::Bad
        }
    } else if c == '(' {
        Lexeme::Tok(TokenView::OpenParen, i + 1)
    } else if c == ')' {
        Lexeme::Tok(TokenView::CloseParen, i + 1)
    } else if c == '=' {
        Lexeme::Tok(TokenView::Assign, i + 1)
    } else if c == ',' {
        Lexeme::Tok(TokenView::Comma, i + 1)
    } else if c == '\n' {
        Lexeme::Tok(TokenView::NewLine, i + 1)
    } else if c == '\t' {
        Lexeme::Tok(TokenView::Tab, i + 1)
    } else if c == '"' {
        match path_end(s, i + 1) {
            Some(e) => Lexeme::Tok(TokenView::Path(s.subrange(i + 1, e)), e + 1),
            None => Lexeme::Bad,
        }
    } else if is_ident_char(c) {
        Lexeme::Tok(word(s.subrange(i, ident_end(s, i))), ident_end(s, i))
    } else {
        Lexeme::Bad
    }
}

/// The tokens of the source `s` from place `i` on, each with the places
/// where it starts and ends; or the place of the first character that
/// starts no token.
pub open spec fn lex_from(s: Seq<char>, i: int) -> core::result::Result<
    Seq<(int, TokenView, int)>,
    int,
>
    decreases s.len() - i,
{
    if !(0 <= i < s.len()) {
        Ok(Seq::empty())
    } else {
        match lexeme_at(s, i) {
            Lexeme::Bad => Err(i),
            Lexeme::Skip(e) => if i < e <= s.len() {
                lex_from(s, e)
            } else {
                Err(i)
            },
            Lexeme::Tok(t, e) => if i < e <= s.len() {
                match lex_from(s, e) {
                    Ok(rest) => Ok(seq![(i, t, e)] + rest),
                    Err(p) => Err(p),
                }
            } else {
                Err(i)
            },
        }
    }
}

/// The number of bytes that a character takes in UTF-8.
pub open spec fn width(c: char) -> int {
    let v = c as u32;
    if v < 0x80 {
        1
    } else if v < 0x800 {
        2
    } else if v < 0x10000 {
        3
    } else {
        4
    }
}

/// The place of character `i` of `s` counted in bytes: the number of bytes
/// that the characters before it take in UTF-8.
pub open spec fn byte_place(s: Seq<char>, i: int) -> int
    decreases i,
{
    if i <= 0 {
        0
    } else if i > s.len() {
        byte_place(s, i - 1)
    } else {
        byte_place(s, i - 1) + width(s[i - 1])
    }
}

/// The tokens with their places counted in bytes.
pub open spec fn in_bytes(s: Seq<char>, tokens: Seq<(int, TokenView, int)>) -> Seq<
    (int, TokenView, int),
> {
    Seq::new(
        tokens.len(),
        |k: int| (byte_place(s, tokens[k].0), tokens[k].1, byte_place(s, tokens[k].2)),
    )
}

/// The tokens of a source text, each with the bytes where it starts and
/// ends; or the byte where the first character stands that starts no token.
pub open spec fn lex(s: Seq<char>) -> core::result::Result<Seq<(int, TokenView, int)>, int> {
    match lex_from(s, 0) {
        Ok(tokens) => Ok(in_bytes(s, tokens)),
        Err(p) => Err(byte_place(s, p)),
    }
}

/// The width of a character is the length of its UTF-8 form.
pub proof fn width_is_encoded(c: char)
    ensures
        encode_scalar(c as u32).len() == width(c),
{
    char_is_scalar(c);
}

proof fn byte_place_shift(s: Seq<char>, i: int)
    requires
        1 <= i <= s.len(),
    ensures
        byte_place(s, i) == width(s[0]) + byte_place(s.drop_first(), i - 1),
    decreases i,
{
    if i > 1 {
        byte_place_shift(s, i - 1);
        assert(s.drop_first()[i - 2] == s[i - 1]);
    } else {
        assert(byte_place(s, 0) == 0);
        assert(byte_place(s.drop_first(), 0) == 0);
    }
}

/// The place of the end of a text is the length of its UTF-8 form.
pub proof fn byte_place_of_end(s: Seq<char>)
    ensures
        byte_place(s, s.len() as int) == encode_utf8(s).len(),
    decreases s.len(),
{
    if s.len() > 0 {
        byte_place_shift(s, s.len() as int);
        byte_place_of_end(s.drop_first());
        width_is_encoded(s[0]);
    }
}

/// The spans of the tokens of a source lie in its UTF-8 form, none is
/// empty, and each token starts where the one before it ends or later.
pub proof fn byte_spans_in_order(s: Seq<char>)
    requires
        lex(s) is Ok,
    ensures
        forall|k: int|
            0 <= k < lex(s)->Ok_0.len() ==> {
                let t = #[trigger] lex(s)->Ok_0[k];
                0 <= t.0 < t.2 <= encode_utf8(s).len()
            },
        forall|j: int, k: int|
            0 <= j < k < lex(s)->Ok_0.len() ==> (#[trigger] lex(s)->Ok_0[j]).2 <= (
            #[trigger] lex(s)->Ok_0[k]).0,
{
    spans_in_order(s, 0);
    byte_place_of_end(s);
    let found = lex_from(s, 0)->Ok_0;
    let tokens = lex(s)->Ok_0;
    assert forall|k: int| 0 <= k < tokens.len() implies {
        let t = #[trigger] tokens[k];
        0 <= t.0 < t.2 <= encode_utf8(s).len()
    } by {
        let t = found[k];
        byte_place_grows(s, 0, t.0);
        byte_place_grows(s, t.0, t.2);
        byte_place_grows(s, t.2, s.len() as int);
    }
    assert forall|j: int, k: int| 0 <= j < k < tokens.len() implies (#[trigger] tokens[j]).2 <= (
    #[trigger] tokens[k]).0 by {
        let a = found[j];
        let b = found[k];
        assert(a.2 <= b.0);
        byte_place_grows(s, a.2, b.0);
    }
}

/// A later character stands at a later byte.
pub proof fn byte_place_grows(s: Seq<char>, i: int, j: int)
    requires
        0 <= i <= j <= s.len(),
    ensures
        byte_place(s, i) <= byte_place(s, j),
        i < j ==> byte_place(s, i) < byte_place(s, j),
    decreases j - i,
{
    if i < j {
        byte_place_grows(s, i, j - 1);
    }
}

/// The spans of the tokens of a source lie in the source, none is empty,
/// and each token starts where the one before it ends or later.
pub proof fn spans_in_order(s: Seq<char>, i: int)
    requires
        0 <= i,
        lex_from(s, i) is Ok,
    ensures
        forall|k: int|
            0 <= k < lex_from(s, i)->Ok_0.len() ==> {
                let t = #[trigger] lex_from(s, i)->Ok_0[k];
                i <= t.0 < t.2 <= s.len()
            },
        forall|j: int, k: int|
            0 <= j < k < lex_from(s, i)->Ok_0.len() ==> (#[trigger] lex_from(s, i)->Ok_0[j]).2 <= (
            #[trigger] lex_from(s, i)->Ok_0[k]).0,
    decreases s.len() - i,
{
    if i < s.len() {
        let tokens = lex_from(s, i)->Ok_0;
        match lexeme_at(s, i) {
            Lexeme::Bad => {},
            Lexeme::Skip(e) => {
                spans_in_order(s, e);
            },
            Lexeme::Tok(t, e) => {
                spans_in_order(s, e);
                let rest = lex_from(s, e)->Ok_0;
                assert(tokens == seq![(i, t, e)] + rest);
                assert forall|k: int| 0 <= k < tokens.len() implies {
                    let t = #[trigger] tokens[k];
                    i <= t.0 < t.2 <= s.len()
                } by {
                    if k > 0 {
                        assert(tokens[k] == rest[k - 1]);
                    }
                }
                assert forall|j: int, k: int| 0 <= j < k < tokens.len() implies (
                #[trigger] tokens[j]).2 <= (#[trigger] tokens[k]).0 by {
                    assert(tokens[k] == rest[k - 1]);
                    if j > 0 {
                        assert(tokens[j] == rest[j - 1]);
                    }
                }
            },
        }
    }
}

pub(crate) fn ident_char(c: char) -> (r: bool)
    ensures
        r == is_ident_char(c),
{
    ('a' <= c && c <= 'z') || ('A' <= c && c <= 'Z') || ('0' <= c && c <= '9') || c == '_' || ('α'
        <= c && c <= 'κ') || ('μ' <= c && c <= 'ω') || ('Α' <= c && c <= 'Κ') || ('Μ' <= c && c
        <= 'Ω')
}

pub(crate) fn scan_ident(chars: &Vec<char>, i: usize) -> (e: usize)
    requires
        i < chars.len(),
        is_ident_char(chars[i as int]),
    ensures
        e == ident_end(chars@, i as int),
        i < e <= chars.len(),
{
    let mut j: usize = i + 1;
    while j < chars.len() && ident_char(chars[j])
        invariant
            i < j <= chars.len(),
            ident_end(chars@, i as int) == ident_end(chars@, j as int),
        decreases chars.len() - j,
    {
        j = j + 1;
    }
    j
}

fn scan_line(chars: &Vec<char>, i: usize) -> (e: usize)
    requires
        i <= chars.len(),
    ensures
        e == line_end(chars@, i as int),
        i <= e <= chars.len(),
{
    let mut j: usize = i;
    while j < chars.len() && chars[j] != '\n'
        invariant
            i <= j <= chars.len(),
            line_end(chars@, i as int) == line_end(chars@, j as int),
        decreases chars.len() - j,
    {
        j = j + 1;
    }
    j
}

fn scan_path(chars: &Vec<char>, i: usize) -> (e: Option<usize>)
    requires
        i <= chars.len(),
    ensures
        match e {
            Some(e) => path_end(chars@, i as int) == Some(e as int) && i <= e < chars.len(),
            None => path_end(chars@, i as int) is None,
        },
{
    let mut j: usize = i;
    while j < chars.len()
        invariant
            i <= j <= chars.len(),
            path_end(chars@, i as int) == path_end(chars@, j as int),
        decreases chars.len() - j,
    {
        let c = chars[j];
        if c == '"' {
            return Some(j);
        } else if c == '\\' {
            if j + 1 < chars.len() && (chars[j + 1] == '\\' || chars[j + 1] == '"') {
                j = j + 2;
            } else {
                return None;
            }
        } else {
            j = j + 1;
        }
    }
    None
}

/// The text of `chars` from `from` up to `to`.
pub(crate) fn text_between(chars: &Vec<char>, from: usize, to: usize) -> (s: String)
    requires
        from <= to <= chars.len(),
    ensures
        s@ == chars@.subrange(from as int, to as int),
{
    let mut s = String::new();
    let mut i: usize = from;
    while i < to
        invariant
            from <= i <= to <= chars.len(),
            s@ == chars@.subrange(from as int, i as int),
        decreases to - i,
    {
        s.push(chars[i]);
        i = i + 1;
        assert(s@ =~= chars@.subrange(from as int, i as int));
    }
    assert(s@ =~= chars@.subrange(from as int, to as int));
    s
}

/// The token of the run of identifier characters from `from` up to `to`.
fn word_between(chars: &Vec<char>, from: usize, to: usize) -> (t: Token)
    requires
        from < to <= chars.len(),
    ensures
        t@ == word(chars@.subrange(from as int, to as int)),
{
    let ghost text = chars@.subrange(from as int, to as int);
    let n = to - from;
    proof {
        let u = seq!['u', 's', 'e'];
        let l = seq!['l', 'e', 't'];
        let i = seq!['i', 'n'];
        assert(u.len() == 3 && u[0] == 'u' && u[1] == 's' && u[2] == 'e');
        assert(l.len() == 3 && l[0] == 'l' && l[1] == 'e' && l[2] == 't');
        assert(i.len() == 2 && i[0] == 'i' && i[1] == 'n');
        assert(text.len() == n);
        assert(text[0] == chars[from as int]);
        if n >= 2 {
            assert(text[1] == chars[from + 1]);
        }
        if n >= 3 {
            assert(text[2] == chars[from + 2]);
        }
    }
    if n == 3 && chars[from] == 'u' && chars[from + 1] == 's' && chars[from + 2] == 'e' {
        assert(text =~= seq!['u', 's', 'e']);
        Token::UseKw
    } else if n == 3 && chars[from] == 'l' && chars[from + 1] == 'e' && chars[from + 2] == 't' {
        assert(text =~= seq!['l', 'e', 't']);
        assert(text[0] != 'u');
        Token::LetKw
    } else if n == 2 && chars[from] == 'i' && chars[from + 1] == 'n' {
        assert(text =~= seq!['i', 'n']);
        assert(text.len() != 3);
        Token::InKw
    } else {
        proof {
            if text == seq!['u', 's', 'e'] {
                assert(text[0] == 'u' && text[1] == 's' && text[2] == 'e');
            }
            if text == seq!['l', 'e', 't'] {
                assert(text[0] == 'l' && text[1] == 'e' && text[2] == 't');
            }
            if text == seq!['i', 'n'] {
                assert(text[0] == 'i' && text[1] == 'n');
            }
        }
        Token::Ident(text_between(chars, from, to))
    }
}

/// What stands at place `i`, for the loop of the lexer: nothing known,
/// something to pass over up to a place, or a token up to a place.
enum Scanned {
    Bad,
    Skip(usize),
    Tok(Token, usize),
}

fn scan(chars: &Vec<char>, i: usize) -> (r: Scanned)
    requires
        i < chars.len(),
    ensures
        match r {
            Scanned::Bad => lexeme_at(chars@, i as int) == Lexeme::Bad,
            Scanned::Skip(e) => lexeme_at(chars@, i as int) == Lexeme::Skip(e as int) && i < e
                <= chars.len(),
            Scanned::Tok(t, e) => lexeme_at(chars@, i as int) == Lexeme::Tok(t@, e as int) && i
                < e <= chars.len(),
        },
{
    let c = chars[i];
    if c == ' ' || c == '\x0c' {
        Scanned::Skip(i + 1)
    } else if c == '#' {
        Scanned::Skip(scan_line(chars, i + 1))
    } else if c == 'λ' || c == '\\' {
        Scanned::Tok(Token::Lambda, i + 1)
    } else if c == '.' {
        Scanned::Tok(Token::Dot, i + 1)
    } else if c == '-' {
        if i + 1 < chars.len() && chars[i + 1] == '>' {
            Scanned::Tok(Token::Dot, i + 2)
        } else {
            Scanned::Bad
        }
    } else if c == '(' {
        Scanned::Tok(Token::OpenParen, i + 1)
    } else if c == ')' {
        Scanned::Tok(Token::CloseParen, i + 1)
    } else if c == '=' {
        Scanned::Tok(Token::Assign, i + 1)
    } else if c == ',' {
        Scanned::Tok(Token::Comma, i + 1)
    } else if c == '\n' {
        Scanned::Tok(Token::NewLine, i + 1)
    } else if c == '\t' {
        Scanned::Tok(Token::Tab, i + 1)
    } else if c == '"' {
        match scan_path(chars, i + 1) {
            Some(e) => Scanned::Tok(Token::Path(text_between(chars, i + 1, e)), e + 1),
            None => Scanned::Bad,
        }
    } else if ident_char(c) {
        let e = scan_ident(chars, i);
        Scanned::Tok(word_between(chars, i, e), e)
    } else {
        Scanned::Bad
    }
}

fn width_of(c: char) -> (w: usize)
    ensures
        w == width(c),
{
    let v = c as u32;
    if v < 0x80 {
        1
    } else if v < 0x800 {
        2
    } else if v < 0x10000 {
        3
    } else {
        4
    }
}

/// The byte place of every character of `src`, and of its end.
pub(crate) fn byte_places(src: &str, chars: &Vec<char>) -> (places: Vec<usize>)
    requires
        chars@ == src@,
    ensures
        places.len() == chars.len() + 1,
        forall|k: int| 0 <= k <= chars.len() ==> places[k] == byte_place(chars@, k),
{
    let total = src.as_bytes().len();
    proof {
        byte_place_of_end(chars@);
    }
    let mut places: Vec<usize> = Vec::new();
    places.push(0);
    let mut i: usize = 0;
    let mut b: usize = 0;
    while i < chars.len()
        invariant
            i <= chars.len(),
            places.len() == i + 1,
            b == byte_place(chars@, i as int),
            byte_place(chars@, chars.len() as int) == total,
            forall|k: int| 0 <= k <= i ==> places[k] == byte_place(chars@, k),
        decreases chars.len() - i,
    {
        proof {
            byte_place_grows(chars@, i + 1, chars.len() as int);
        }
        b = b + width_of(chars[i]);
        places.push(b);
        i = i + 1;
    }
    places
}

/// Turns a source text into its tokens, each with the bytes where it starts
/// and ends. Blank space and comments are passed over; a newline and a tab
/// are tokens. The first character that starts no token ends the work with
/// an error that holds the byte where it stands.
pub fn tokenize(src: &str) -> (r: Result<Vec<ParserToken>, Error>)
    ensures
        match lex(src@) {
            Ok(tokens) => r is Ok && tokens_view(r->Ok_0@) == tokens,
            Err(p) => r is Err && r->Err_0 == Error::LexerError(p as usize),
        },
{
    let chars = chars_of(src);
    let places = byte_places(src, &chars);
    let mut out: Vec<ParserToken> = Vec::new();
    let mut i: usize = 0;
    let ghost mut done: Seq<(int, TokenView, int)> = Seq::empty();
    proof {
        assert(tokens_view(out@) =~= in_bytes(chars@, done));
        match lex_from(chars@, 0) {
            Ok(rest) => {
                assert(done + rest =~= rest);
            },
            Err(_) => {},
        }
    }
    while i < chars.len()
        invariant
            i <= chars.len(),
            chars@ == src@,
            places.len() == chars.len() + 1,
            forall|k: int| 0 <= k <= chars.len() ==> places[k] == byte_place(chars@, k),
            tokens_view(out@) == in_bytes(chars@, done),
            match lex_from(chars@, i as int) {
                Ok(rest) => lex_from(chars@, 0) == Ok::<Seq<(int, TokenView, int)>, int>(
                    done + rest,
                ),
                Err(p) => lex_from(chars@, 0) == Err::<Seq<(int, TokenView, int)>, int>(p),
            },
        decreases chars.len() - i,
    {
        match scan(&chars, i) {
            Scanned::Bad => {
                return Err(Error::LexerError(places[i]));
            },
            Scanned::Skip(e) => {
                i = e;
            },
            Scanned::Tok(t, e) => {
                proof {
                    let item = (i as int, t@, e as int);
                    let spanned = (places[i as int], t, places[e as int]);
                    let lhs = tokens_view(out@.push(spanned));
                    let rhs = in_bytes(chars@, done.push(item));
                    assert(tokens_view(out@).len() == in_bytes(chars@, done).len());
                    assert forall|k: int| 0 <= k < lhs.len() implies lhs[k] == rhs[k] by {
                        if k < out@.len() {
                            assert(out@.push(spanned)[k] == out@[k]);
                            assert(done.push(item)[k] == done[k]);
                            assert(tokens_view(out@)[k] == in_bytes(chars@, done)[k]);
                        } else {
                            assert(out@.push(spanned)[k] == spanned);
                            assert(done.push(item)[k] == item);
                        }
                    }
                    assert(lhs =~= rhs);
                    match lex_from(chars@, e as int) {
                        Ok(rest) => {
                            assert(done + (seq![item] + rest) =~= done.push(item) + rest);
                        },
                        Err(_) => {},
                    }
                    done = done.push(item);
                }
                out.push((places[i], t, places[e]));
                i = e;
            },
        }
    }
    proof {
        assert(done + Seq::empty() =~= done);
    }
    Ok(out)
}

} // verus!
