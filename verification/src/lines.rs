//! Definitions in a text, line by line: `name = text`, where a line that
//! starts with a space or a tab goes on the line before it, and what follows
//! a `#` is a comment.

use vstd::prelude::*;
use crate::text::{chars_of, string_of, texts};

verus! {

/// A character of blank space.
pub open spec fn is_blank(c: char) -> bool {
    c == ' ' || c == '\t' || c == '\n' || c == '\r' || c == '\x0b' || c == '\x0c'
}

/// The text without the blank space at its start.
pub open spec fn trim_start(s: Seq<char>) -> Seq<char>
    decreases s.len(),
{
    if s.len() > 0 && is_blank(s[0]) {
        trim_start(s.drop_first())
    } else {
        s
    }
}

/// The text without the blank space at its end.
pub open spec fn trim_end(s: Seq<char>) -> Seq<char>
    decreases s.len(),
{
    if s.len() > 0 && is_blank(s.last()) {
        trim_end(s.drop_last())
    } else {
        s
    }
}

/// The text without the blank space at its start and at its end.
pub open spec fn trimmed(s: Seq<char>) -> Seq<char> {
    trim_end(trim_start(s))
}

/// The line without the carriage return at its end.
pub open spec fn strip_cr(s: Seq<char>) -> Seq<char> {
    if s.len() > 0 && s.last() == '\r' {
        s.drop_last()
    } else {
        s
    }
}

/// The lines of the text `s` from place `i` on, after the lines `acc` and
/// the start `cur` of a line. A line ends at a newline, or at a carriage
/// return before a newline; what stands after the last newline is a line
/// where it is not empty.
pub open spec fn lines_from(s: Seq<char>, i: int, cur: Seq<char>, acc: Seq<Seq<char>>) -> Seq<
    Seq<char>,
>
    decreases s.len() - i,
{
    if !(0 <= i < s.len()) {
        if cur.len() > 0 {
            acc.push(cur)
        } else {
            acc
        }
    } else if s[i] == '\n' {
        lines_from(s, i + 1, Seq::empty(), acc.push(strip_cr(cur)))
    } else {
        lines_from(s, i + 1, cur.push(s[i]), acc)
    }
}

/// The lines of a text.
pub open spec fn lines_of(s: Seq<char>) -> Seq<Seq<char>> {
    lines_from(s, 0, Seq::empty(), Seq::empty())
}

/// The line starts with a space or a tab.
pub open spec fn starts_indented(line: Seq<char>) -> bool {
    line.len() > 0 && (line[0] == ' ' || line[0] == '\t')
}

/// The first `n` of `lines` with each line that starts with a space or a
/// tab put at the end of the line before it.
pub open spec fn tabulated(lines: Seq<Seq<char>>, n: int) -> Seq<Seq<char>>
    decreases n,
{
    if !(0 < n <= lines.len()) {
        Seq::empty()
    } else {
        let prev = tabulated(lines, n - 1);
        let line = lines[n - 1];
        if starts_indented(line) && prev.len() > 0 {
            prev.update(prev.len() - 1, prev.last() + line)
        } else {
            prev.push(line)
        }
    }
}

/// The first place from `i` on where `c` stands in `s`; the length of `s`
/// where it stands at none.
pub open spec fn cut_at(s: Seq<char>, c: char, i: int) -> int
    decreases s.len() - i,
{
    if !(0 <= i < s.len()) {
        s.len() as int
    } else if s[i] == c {
        i
    } else {
        cut_at(s, c, i + 1)
    }
}

/// The definition that a line holds: the name before its first `=` and the
/// text after it, both without blank space around them. What follows a `#`
/// is a comment and does not count. A line without `=` holds none.
pub open spec fn binding_of(line: Seq<char>) -> Option<(Seq<char>, Seq<char>)> {
    let code = line.subrange(0, cut_at(line, '#', 0));
    let eq = cut_at(code, '=', 0);
    if eq < code.len() {
        Some((trimmed(code.subrange(0, eq)), trimmed(code.subrange(eq + 1, code.len() as int))))
    } else {
        None
    }
}

/// The definitions that the first `n` of `lines` hold, in their order.
pub open spec fn bindings_in(lines: Seq<Seq<char>>, n: int) -> Seq<(Seq<char>, Seq<char>)>
    decreases n,
{
    if !(0 < n <= lines.len()) {
        Seq::empty()
    } else {
        let prev = bindings_in(lines, n - 1);
        match binding_of(lines[n - 1]) {
            Some(b) => prev.push(b),
            None => prev,
        }
    }
}

/// The definitions that a text holds, one on each line; a line that starts
/// with a space or a tab goes on the line before it.
pub open spec fn bindings(s: Seq<char>) -> Seq<(Seq<char>, Seq<char>)> {
    let lines = tabulated(lines_of(s), lines_of(s).len() as int);
    bindings_in(lines, lines.len() as int)
}

/// The texts of rows of characters, as contracts see them.
pub open spec fn rows(v: Seq<Vec<char>>) -> Seq<Seq<char>> {
    Seq::new(v.len(), |i: int| v[i]@)
}

/// Names and texts, as contracts see them.
pub open spec fn pairs(v: Seq<(String, String)>) -> Seq<(Seq<char>, Seq<char>)> {
    Seq::new(v.len(), |i: int| (v[i].0@, v[i].1@))
}

/// The lines of a text.
fn split_lines(chars: &Vec<char>) -> (r: Vec<Vec<char>>)
    ensures
        rows(r@) == lines_of(chars@),
{
    let mut acc: Vec<Vec<char>> = Vec::new();
    let mut cur: Vec<char> = Vec::new();
    let mut i: usize = 0;
    proof {
        assert(rows(acc@) =~= Seq::empty());
    }
    while i < chars.len()
        invariant
            i <= chars.len(),
            lines_of(chars@) == lines_from(chars@, i as int, cur@, rows(acc@)),
        decreases chars.len() - i,
    {
        let c = chars[i];
        if c == '\n' {
            if cur.len() > 0 && cur[cur.len() - 1] == '\r' {
                cur.pop();
            }
            proof {
                assert(rows(acc@.push(cur)) =~= rows(acc@).push(cur@));
            }
            acc.push(cur);
            cur = Vec::new();
        } else {
            cur.push(c);
        }
        i = i + 1;
    }
    if cur.len() > 0 {
        proof {
            assert(rows(acc@.push(cur)) =~= rows(acc@).push(cur@));
        }
        acc.push(cur);
    }
    acc
}

/// The lines with each line that starts with a space or a tab put at the
/// end of the line before it.
fn join_indented(lines: Vec<Vec<char>>) -> (r: Vec<Vec<char>>)
    ensures
        rows(r@) == tabulated(rows(lines@), lines@.len() as int),
{
    let mut out: Vec<Vec<char>> = Vec::new();
    let mut i: usize = 0;
    proof {
        assert(rows(out@) =~= Seq::empty());
    }
    while i < lines.len()
        invariant
            i <= lines.len(),
            rows(out@) == tabulated(rows(lines@), i as int),
        decreases lines.len() - i,
    {
        let line = &lines[i];
        let indented = line.len() > 0 && (line[0] == ' ' || line[0] == '\t');
        let ghost prev = rows(out@);
        assert(rows(lines@)[i as int] == line@);
        if indented && out.len() > 0 {
            let mut last = match out.pop() {
                Some(last) => last,
                None => Vec::new(),
            };
            let ghost head = last@;
            let mut k: usize = 0;
            while k < line.len()
                invariant
                    k <= line.len(),
                    last@ == head + line@.take(k as int),
                decreases line.len() - k,
            {
                last.push(line[k]);
                k = k + 1;
                assert(last@ =~= head + line@.take(k as int));
            }
            proof {
                assert(line@.take(line.len() as int) =~= line@);
                assert(rows(out@.push(last)) =~= prev.update(prev.len() - 1, prev.last() + line@));
            }
            out.push(last);
        } else {
            let mut copy: Vec<char> = Vec::new();
            let mut k: usize = 0;
            while k < line.len()
                invariant
                    k <= line.len(),
                    copy@ == line@.take(k as int),
                decreases line.len() - k,
            {
                copy.push(line[k]);
                k = k + 1;
                assert(copy@ =~= line@.take(k as int));
            }
            proof {
                assert(line@.take(line.len() as int) =~= line@);
                assert(rows(out@.push(copy)) =~= prev.push(line@));
            }
            out.push(copy);
        }
        i = i + 1;
    }
    out
}

/// The lines of a text, each line that starts with a space or a tab put at
/// the end of the line before it.
pub fn tabulated_lines(s: &str) -> (r: Vec<String>)
    ensures
        texts(r@) == tabulated(lines_of(s@), lines_of(s@).len() as int),
{
    let chars = chars_of(s);
    let lines = join_indented(split_lines(&chars));
    let mut out: Vec<String> = Vec::new();
    let mut i: usize = 0;
    while i < lines.len()
        invariant
            i <= lines.len(),
            out@.len() == i,
            forall|k: int| 0 <= k < i ==> (#[trigger] out@[k])@ == lines@[k]@,
        decreases lines.len() - i,
    {
        out.push(string_of(&lines[i]));
        i = i + 1;
    }
    assert(texts(out@) =~= rows(lines@));
    out
}

/// The lines of a text, handed out one by one, each with the lines after
/// it that start with a space or a tab put at its end.
pub struct TabulatedLines {
    /// The lines, joined.
    pub lines: Vec<String>,
    /// The place of the next line to hand out.
    pub pos: usize,
}

impl TabulatedLines {
    /// The lines of `s`, none handed out yet.
    pub fn new(s: &str) -> (r: TabulatedLines)
        ensures
            texts(r.lines@) == tabulated(lines_of(s@), lines_of(s@).len() as int),
            r.pos == 0,
    {
        TabulatedLines { lines: tabulated_lines(s), pos: 0 }
    }

    /// The next line, where one is left.
    pub fn next(&mut self) -> (r: Option<String>)
        ensures
            final(self).lines == old(self).lines,
            match r {
                Some(line) => old(self).pos < old(self).lines@.len() && line == old(
                    self,
                ).lines@[old(self).pos as int] && final(self).pos == old(self).pos + 1,
                None => old(self).pos >= old(self).lines@.len() && final(self).pos == old(
                    self,
                ).pos,
            },
    {
        if self.pos < self.lines.len() {
            let line = self.lines[self.pos].clone();
            self.pos = self.pos + 1;
            Some(line)
        } else {
            None
        }
    }
}

/// The first place from `from` on where `c` stands in the first `end`
/// characters of `chars`; `end` where it stands at none.
fn find_char(chars: &Vec<char>, c: char, from: usize, end: usize) -> (r: usize)
    requires
        from <= end <= chars.len(),
    ensures
        r == cut_at(chars@.subrange(0, end as int), c, from as int),
        from <= r <= end,
{
    let ghost part = chars@.subrange(0, end as int);
    let mut i: usize = from;
    while i < end && chars[i] != c
        invariant
            from <= i <= end <= chars.len(),
            part == chars@.subrange(0, end as int),
            cut_at(part, c, from as int) == cut_at(part, c, i as int),
        decreases end - i,
    {
        assert(part[i as int] == chars[i as int]);
        i = i + 1;
    }
    proof {
        if i < end {
            assert(part[i as int] == chars[i as int]);
        }
    }
    i
}

/// The text between two places of `chars`, without the blank space at its
/// start and at its end.
fn trimmed_between(chars: &Vec<char>, from: usize, to: usize) -> (r: String)
    requires
        from <= to <= chars.len(),
    ensures
        r@ == trimmed(chars@.subrange(from as int, to as int)),
{
    let ghost whole = chars@.subrange(from as int, to as int);
    let mut a: usize = from;
    while a < to && blank(chars[a])
        invariant
            from <= a <= to <= chars.len(),
            trim_start(whole) == trim_start(chars@.subrange(a as int, to as int)),
        decreases to - a,
    {
        proof {
            let part = chars@.subrange(a as int, to as int);
            assert(part[0] == chars[a as int]);
            assert(part.drop_first() =~= chars@.subrange(a + 1, to as int));
        }
        a = a + 1;
    }
    let ghost left = chars@.subrange(a as int, to as int);
    proof {
        if a < to {
            assert(left[0] == chars[a as int]);
        }
        assert(trim_start(whole) == left);
    }
    let mut b: usize = to;
    while b > a && blank(chars[b - 1])
        invariant
            a <= b <= to <= chars.len(),
            trim_end(left) == trim_end(chars@.subrange(a as int, b as int)),
        decreases b - a,
    {
        proof {
            let part = chars@.subrange(a as int, b as int);
            assert(part.last() == chars[b - 1]);
            assert(part.drop_last() =~= chars@.subrange(a as int, b - 1));
        }
        b = b - 1;
    }
    proof {
        let part = chars@.subrange(a as int, b as int);
        if b > a {
            assert(part.last() == chars[b - 1]);
        }
        assert(trim_end(left) == part);
    }
    let mut out = String::new();
    let mut k: usize = a;
    while k < b
        invariant
            a <= k <= b <= chars.len(),
            out@ == chars@.subrange(a as int, k as int),
        decreases b - k,
    {
        out.push(chars[k]);
        k = k + 1;
        assert(out@ =~= chars@.subrange(a as int, k as int));
    }
    out
}

fn blank(c: char) -> (r: bool)
    ensures
        r == is_blank(c),
{
    c == ' ' || c == '\t' || c == '\n' || c == '\r' || c == '\x0b' || c == '\x0c'
}

/// The definition that a line holds.
fn binding(line: &Vec<char>) -> (r: Option<(String, String)>)
    ensures
        match binding_of(line@) {
            Some(b) => r is Some && (r->0).0@ == b.0 && (r->0).1@ == b.1,
            None => r is None,
        },
{
    proof {
        assert(line@.subrange(0, line.len() as int) =~= line@);
    }
    let end = find_char(line, '#', 0, line.len());
    let ghost code = line@.subrange(0, end as int);
    let eq = find_char(line, '=', 0, end);
    if eq < end {
        proof {
            assert(code.subrange(0, eq as int) =~= line@.subrange(0, eq as int));
            assert(code.subrange(eq + 1, code.len() as int) =~= line@.subrange(
                eq + 1,
                end as int,
            ));
        }
        Some((trimmed_between(line, 0, eq), trimmed_between(line, eq + 1, end)))
    } else {
        None
    }
}

/// The definitions that a text holds, in their order: on each line the
/// name before the first `=` and the text after it. A line that starts with
/// a space or a tab goes on the line before it; what follows a `#` is a
/// comment.
pub fn parse_bindings(s: &str) -> (r: Vec<(String, String)>)
    ensures
        pairs(r@) == bindings(s@),
{
    let chars = chars_of(s);
    let lines = join_indented(split_lines(&chars));
    let mut out: Vec<(String, String)> = Vec::new();
    let mut i: usize = 0;
    proof {
        assert(pairs(out@) =~= Seq::empty());
    }
    while i < lines.len()
        invariant
            i <= lines.len(),
            pairs(out@) == bindings_in(rows(lines@), i as int),
        decreases lines.len() - i,
    {
        assert(rows(lines@)[i as int] == lines@[i as int]@);
        match binding(&lines[i]) {
            Some(b) => {
                proof {
                    assert(pairs(out@.push(b)) =~= pairs(out@).push((b.0@, b.1@)));
                }
                out.push(b);
            },
            None => {},
        }
        i = i + 1;
    }
    out
}

} // verus!
