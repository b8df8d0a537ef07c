//! The arguments of a command line: words between spaces, with double
//! quotes around words that hold spaces and a backslash before characters
//! that would else mean something.

use vstd::prelude::*;
use crate::text::{chars_of, string_of, texts};

verus! {

/// What can be wrong with a command.
#[derive(Debug, Clone, PartialEq, Eq)]
pub enum ArgsError {
    /// The command takes another number of arguments: those found, then
    /// those expected.
    MissingArgs(usize, usize),
    UnknownSetting(String),
    /// The text is no list of arguments.
    ValueParserError(String),
    UnknownCommand(String),
}

/// The place, from `i` on, of the first double quote that no backslash
/// stands before. A backslash and the character after it are passed over
/// together.
pub open spec fn quote_end(s: Seq<char>, i: int) -> Option<int>
    decreases s.len() - i,
{
    if !(0 <= i < s.len()) {
        None
    } else if s[i] == '"' {
        Some(i)
    } else if s[i] == '\\' {
        if i + 1 < s.len() {
            quote_end(s, i + 2)
        } else {
            None
        }
    } else {
        quote_end(s, i + 1)
    }
}

/// The text between the double quote that `s` starts with and the next
/// double quote that no backslash stands before, as it is written. A text
/// that starts with no double quote, or in which none closes the first,
/// has none.
pub open spec fn substr_of(s: Seq<char>) -> Option<Seq<char>> {
    if s.len() > 0 && s[0] == '"' {
        match quote_end(s, 1) {
            Some(e) => Some(s.subrange(1, e)),
            None => None,
        }
    } else {
        None
    }
}

/// The text between the double quote that `s` starts with and the next
/// double quote that no backslash stands before.
pub fn get_substr(s: &str) -> (r: Option<&str>)
    ensures
        match substr_of(s@) {
            Some(text) => r is Some && r->0@ == text,
            None => r is None,
        },
{
    let chars = chars_of(s);
    if chars.len() == 0 || chars[0] != '"' {
        return None;
    }
    let mut i: usize = 1;
    while i < chars.len()
        invariant
            1 <= i <= chars.len(),
            chars@ == s@,
            chars@[0] == '"',
            quote_end(chars@, 1) == quote_end(chars@, i as int),
        decreases chars.len() - i,
    {
        let c = chars[i];
        if c == '"' {
            return Some(s.substring_char(1, i));
        } else if c == '\\' {
            if i + 1 < chars.len() {
                i = i + 2;
            } else {
                return None;
            }
        } else {
            i = i + 1;
        }
    }
    None
}

/// The value of a hexadecimal digit.
pub open spec fn hex_value(c: char) -> Option<int> {
    if '0' <= c <= '9' {
        Some(c as int - '0' as int)
    } else if 'a' <= c <= 'f' {
        Some(c as int - 'a' as int + 10)
    } else if 'A' <= c <= 'F' {
        Some(c as int - 'A' as int + 10)
    } else {
        None
    }
}

/// The character that an escape sequence stands for, and the place after
/// the sequence. The sequence starts at place `i`, after its backslash:
/// `t`, `n`, `r` and `0` stand for tab, newline, carriage return and the
/// null character; a double quote, a single quote and a backslash stand for
/// themselves; `x` and two hexadecimal digits stand for the character of
/// that number.
pub open spec fn escape_at(s: Seq<char>, i: int) -> Option<(char, int)> {
    if !(0 <= i < s.len()) {
        None
    } else if s[i] == 't' {
        Some(('\t', i + 1))
    } else if s[i] == 'n' {
        Some(('\n', i + 1))
    } else if s[i] == 'r' {
        Some(('\r', i + 1))
    } else if s[i] == '0' {
        Some(('\0', i + 1))
    } else if s[i] == '"' {
        Some(('"', i + 1))
    } else if s[i] == '\'' {
        Some(('\'', i + 1))
    } else if s[i] == '\\' {
        Some(('\\', i + 1))
    } else if s[i] == 'x' && i + 2 < s.len() {
        match (hex_value(s[i + 1]), hex_value(s[i + 2])) {
            (Some(h), Some(l)) => Some((((16 * h + l) as u8) as char, i + 3)),
            _ => None,
        }
    } else {
        None
    }
}

/// The arguments so far with the word `buf` at their end, where it is not
/// empty.
pub open spec fn collected(acc: Seq<Seq<char>>, buf: Seq<char>) -> Seq<Seq<char>> {
    if buf.len() == 0 {
        acc
    } else {
        acc.push(buf)
    }
}

/// The arguments of the text `s` from place `i` on, after the arguments
/// `acc` and the start `buf` of a word; `quoted` says that place `i` is
/// between double quotes.
///
/// - Outside quotes a space ends a word and a double quote ends a word and
///   opens quotes; inside quotes a double quote ends a word and closes them.
/// - A backslash and the escape sequence after it put one character into
///   the word.
/// - Any other character goes into the word.
///
/// An empty word is no argument. Quotes that are open at the end, and a
/// backslash before no escape sequence, leave the text without arguments.
pub open spec fn args_from(
    s: Seq<char>,
    i: int,
    acc: Seq<Seq<char>>,
    buf: Seq<char>,
    quoted: bool,
) -> Option<Seq<Seq<char>>>
    decreases s.len() - i,
{
    if !(0 <= i < s.len()) {
        if quoted {
            None
        } else {
            Some(collected(acc, buf))
        }
    } else if s[i] == '\\' {
        match escape_at(s, i + 1) {
            Some((c, j)) => if i < j <= s.len() {
                args_from(s, j, acc, buf.push(c), quoted)
            } else {
                None
            },
            None => None,
        }
    } else if s[i] == '"' {
        args_from(s, i + 1, collected(acc, buf), Seq::empty(), !quoted)
    } else if s[i] == ' ' && !quoted {
        args_from(s, i + 1, collected(acc, buf), Seq::empty(), false)
    } else {
        args_from(s, i + 1, acc, buf.push(s[i]), quoted)
    }
}

/// The arguments of a text.
pub open spec fn args_of(s: Seq<char>) -> Option<Seq<Seq<char>>> {
    args_from(s, 0, Seq::empty(), Seq::empty(), false)
}

fn hex_digit(c: char) -> (r: Option<u8>)
    ensures
        match r {
            Some(d) => hex_value(c) == Some(d as int) && d < 16,
            None => hex_value(c) is None,
        },
{
    if '0' <= c && c <= '9' {
        Some(((c as u32) - ('0' as u32)) as u8)
    } else if 'a' <= c && c <= 'f' {
        Some(((c as u32) - ('a' as u32) + 10) as u8)
    } else if 'A' <= c && c <= 'F' {
        Some(((c as u32) - ('A' as u32) + 10) as u8)
    } else {
        None
    }
}

/// The character that the escape sequence at place `pos` of `chars` stands
/// for, and the place after the sequence.
pub fn get_escape_seq(chars: &Vec<char>, pos: usize) -> (r: Option<(char, usize)>)
    ensures
        match escape_at(chars@, pos as int) {
            Some((c, j)) => r == Some((c, j as usize)) && pos < j <= chars.len(),
            None => r is None,
        },
{
    if pos >= chars.len() {
        return None;
    }
    let c = chars[pos];
    if c == 't' {
        Some(('\t', pos + 1))
    } else if c == 'n' {
        Some(('\n', pos + 1))
    } else if c == 'r' {
        Some(('\r', pos + 1))
    } else if c == '0' {
        Some(('\0', pos + 1))
    } else if c == '"' {
        Some(('"', pos + 1))
    } else if c == '\'' {
        Some(('\'', pos + 1))
    } else if c == '\\' {
        Some(('\\', pos + 1))
    } else if c == 'x' && chars.len() >= 3 && pos < chars.len() - 2 {
        match (hex_digit(chars[pos + 1]), hex_digit(chars[pos + 2])) {
            (Some(h), Some(l)) => Some(((16 * h + l) as char, pos + 3)),
            _ => None,
        }
    } else {
        None
    }
}

/// Puts the word `buf` at the end of `v`, where it is not empty, and
/// empties it.
fn collect(v: &mut Vec<String>, buf: &mut Vec<char>)
    ensures
        texts(final(v)@) == collected(texts(old(v)@), old(buf)@),
        final(buf)@ == Seq::<char>::empty(),
{
    if buf.len() > 0 {
        let word = string_of(buf);
        proof {
            assert(texts(v@.push(word)) =~= texts(v@).push(word@));
        }
        v.push(word);
        buf.clear();
    }
}

/// Splits a command line into its arguments. `None` where quotes are left
/// open or a backslash stands before no escape sequence.
pub fn get_args(s: &str) -> (r: Option<Vec<String>>)
    ensures
        match args_of(s@) {
            Some(args) => r is Some && texts(r->0@) == args,
            None => r is None,
        },
{
    let chars = chars_of(s);
    let mut v: Vec<String> = Vec::new();
    let mut buf: Vec<char> = Vec::new();
    let mut quoted = false;
    let mut i: usize = 0;
    proof {
        assert(texts(v@) =~= Seq::empty());
    }
    while i < chars.len()
        invariant
            i <= chars.len(),
            chars@ == s@,
            args_of(chars@) == args_from(chars@, i as int, texts(v@), buf@, quoted),
        decreases chars.len() - i,
    {
        let c = chars[i];
        if c == '\\' {
            match get_escape_seq(&chars, i + 1) {
                Some((e, j)) => {
                    buf.push(e);
                    i = j;
                },
                None => {
                    return None;
                },
            }
        } else if c == '"' {
            collect(&mut v, &mut buf);
            quoted = !quoted;
            i = i + 1;
        } else if c == ' ' && !quoted {
            collect(&mut v, &mut buf);
            i = i + 1;
        } else {
            buf.push(c);
            i = i + 1;
        }
    }
    if quoted {
        return None;
    }
    collect(&mut v, &mut buf);
    Some(v)
}

/// The kinds of words of a command line.
#[derive(Debug, Clone, Copy, PartialEq, Eq, Structural)]
pub enum Arg {
    /// A word between double quotes.
    StrLit,
    /// A word.
    Arg,
    /// The sign `=`.
    Assign,
    /// Blank space.
    Ws,
    /// A `#` and what follows it.
    Comment,
}

/// What is wrong with the escapes of a text.
pub enum BadEscape {
    /// A backslash stands before a character that it gives no meaning to.
    Unknown,
    /// A backslash stands at the end.
    Dangling,
}

/// The character that stands for itself, or for which `c` stands, after a
/// backslash: `0`, `n`, `r` and `t` stand for the null character, newline,
/// carriage return and tab.
pub open spec fn escaped(c: char) -> Option<char> {
    if c == '0' {
        Some('\0')
    } else if c == 'n' {
        Some('\n')
    } else if c == 'r' {
        Some('\r')
    } else if c == 't' {
        Some('\t')
    } else if c == '\\' || c == '\'' || c == '"' {
        Some(c)
    } else {
        None
    }
}

/// The text `s` from place `i` on with each backslash and the character
/// after it replaced by the character that the two stand for.
pub open spec fn unescaped(s: Seq<char>, i: int) -> core::result::Result<Seq<char>, BadEscape>
    decreases s.len() - i,
{
    if !(0 <= i < s.len()) {
        Ok(Seq::empty())
    } else if s[i] == '\\' {
        if i + 1 >= s.len() {
            Err(BadEscape::Dangling)
        } else {
            match escaped(s[i + 1]) {
                Some(c) => match unescaped(s, i + 2) {
                    Ok(rest) => Ok(seq![c] + rest),
                    Err(e) => Err(e),
                },
                None => Err(BadEscape::Unknown),
            }
        }
    } else {
        match unescaped(s, i + 1) {
            Ok(rest) => Ok(seq![s[i]] + rest),
            Err(e) => Err(e),
        }
    }
}

/// The first fault of the escapes of `s` from place `i` on is a backslash
/// at the end.
pub open spec fn ends_dangling(s: Seq<char>, i: int) -> bool {
    unescaped(s, i) is Err && unescaped(s, i)->Err_0 is Dangling
}

impl Arg {
    /// The text with its escapes resolved: each backslash and the character
    /// after it become the character that the two stand for. `None` where a
    /// backslash stands before a character that it gives no meaning to.
    pub fn format(s: &str) -> (r: Option<String>)
        requires
            !ends_dangling(s@, 0),
        ensures
            match unescaped(s@, 0) {
                Ok(text) => r is Some && r->0@ == text,
                Err(_) => r is None,
            },
    {
        let chars = chars_of(s);
        let mut buf = String::new();
        let mut i: usize = 0;
        proof {
            match unescaped(chars@, 0) {
                Ok(rest) => {
                    assert(buf@ + rest =~= rest);
                },
                Err(_) => {},
            }
        }
        while i < chars.len()
            invariant
                i <= chars.len(),
                chars@ == s@,
                !ends_dangling(chars@, i as int),
                match unescaped(chars@, i as int) {
                    Ok(rest) => unescaped(chars@, 0) == Ok::<Seq<char>, BadEscape>(buf@ + rest),
                    Err(_) => unescaped(chars@, 0) is Err,
                },
            decreases chars.len() - i,
        {
            let c = chars[i];
            let ghost before = buf@;
            if c == '\\' {
                let next = chars[i + 1];
                let to_push = if next == '0' {
                    '\0'
                } else if next == 'n' {
                    '\n'
                } else if next == 'r' {
                    '\r'
                } else if next == 't' {
                    '\t'
                } else if next == '\\' || next == '\'' || next == '"' {
                    next
                } else {
                    return None;
                };
                proof {
                    match unescaped(chars@, i + 2) {
                        Ok(rest) => {
                            assert(before + (seq![to_push] + rest) =~= before.push(to_push) + rest);
                        },
                        Err(_) => {},
                    }
                }
                buf.push(to_push);
                i = i + 2;
            } else {
                proof {
                    match unescaped(chars@, i + 1) {
                        Ok(rest) => {
                            assert(before + (seq![c] + rest) =~= before.push(c) + rest);
                        },
                        Err(_) => {},
                    }
                }
                buf.push(c);
                i = i + 1;
            }
        }
        proof {
            assert(buf@ + Seq::<char>::empty() =~= buf@);
        }
        Some(buf)
    }
}

} // verus!
