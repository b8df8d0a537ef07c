//! The names of variables: an identifier is written in base 60 over an
//! alphabet of Greek letters, Latin letters and digits, lowest digit first.

use vstd::prelude::*;
use crate::term::VarId;
use crate::text::chars_of;

verus! {

broadcast use vstd::string::group_string_axioms;

/// The number of glyphs of the alphabet.
pub const BASE: usize = 60;

/// The glyphs, in the order of their values.
pub open spec fn alphabet() -> Seq<char> {
    "αβγδεζηθικμνξοπρσςτυφχψωabcdefghijklmnopqrstuvwxyz0123456789"@
}

/// The alphabet has 60 glyphs, each of them once.
pub proof fn alphabet_distinct()
    ensures
        alphabet().len() == 60,
        alphabet().no_duplicates(),
{
    reveal_strlit("αβγδεζηθικμνξοπρσςτυφχψωabcdefghijklmnopqrstuvwxyz0123456789");
}

/// The value of a glyph: its place in the alphabet.
pub open spec fn glyph_value(c: char) -> Option<int> {
    if alphabet().contains(c) {
        Some(alphabet().index_of(c))
    } else {
        None
    }
}

/// The name of an identifier: its digits in base 60, the lowest first, each
/// written as its glyph.
pub open spec fn alias_of(n: nat) -> Seq<char>
    decreases n,
{
    if n < 60 {
        seq![alphabet()[n as int]]
    } else {
        seq![alphabet()[(n % 60) as int]] + alias_of(n / 60)
    }
}

/// The identifier that a name stands for: its glyphs read as digits in base
/// 60, the lowest first. `None` where a character is no glyph.
pub open spec fn value_of(s: Seq<char>) -> Option<nat>
    decreases s.len(),
{
    if s.len() == 0 {
        Some(0)
    } else {
        match (glyph_value(s[0]), value_of(s.drop_first())) {
            (Some(d), Some(rest)) => Some((d + 60 * rest) as nat),
            _ => None,
        }
    }
}

/// The value of the glyph at a place of the alphabet is that place.
pub proof fn glyph_value_at(i: int)
    requires
        0 <= i < 60,
    ensures
        glyph_value(alphabet()[i]) == Some(i),
{
    alphabet_distinct();
    let c = alphabet()[i];
    assert(alphabet().contains(c));
    let j = alphabet().index_of(c);
    assert(0 <= j < 60 && alphabet()[j] == c);
}

/// A name is read back as the identifier it was written for.
pub proof fn alias_round_trip(n: nat)
    ensures
        value_of(alias_of(n)) == Some(n),
    decreases n,
{
    let s = alias_of(n);
    if n < 60 {
        glyph_value_at(n as int);
        assert(s.drop_first() =~= Seq::<char>::empty());
        assert(value_of(s.drop_first()) == Some(0nat));
    } else {
        glyph_value_at((n % 60) as int);
        alias_round_trip(n / 60);
        assert(s.drop_first() =~= alias_of(n / 60));
        assert(s[0] == alphabet()[(n % 60) as int]);
    }
}

/// The glyph of the digit `i`.
pub fn glyph_at(i: usize) -> (c: char)
    requires
        i < 60,
    ensures
        c == alphabet()[i as int],
{
    proof {
        alphabet_distinct();
    }
    "αβγδεζηθικμνξοπρσςτυφχψωabcdefghijklmnopqrstuvwxyz0123456789".get_char(i)
}

/// The digit that the glyph `c` stands for.
pub fn glyph_index(c: char) -> (r: Option<usize>)
    ensures
        match r {
            Some(i) => glyph_value(c) == Some(i as int) && i < 60,
            None => glyph_value(c) is None,
        },
{
    proof {
        alphabet_distinct();
    }
    let mut i: usize = 0;
    while i < 60
        invariant
            i <= 60,
            alphabet().len() == 60,
            forall|j: int| 0 <= j < i ==> alphabet()[j] != c,
        decreases 60 - i,
    {
        if glyph_at(i) == c {
            proof {
                glyph_value_at(i as int);
            }
            return Some(i);
        }
        i = i + 1;
    }
    None
}

/// The name of the identifier `var`.
pub fn get_alias(var: VarId) -> (s: String)
    ensures
        s@ == alias_of(var as nat),
{
    let mut s = String::new();
    let mut rest: usize = var;
    while rest >= 60
        invariant
            s@ + alias_of(rest as nat) == alias_of(var as nat),
        decreases rest,
    {
        let ghost before = s@;
        s.push(glyph_at(rest % 60));
        proof {
            assert(s@ + alias_of((rest / 60) as nat) =~= before + alias_of(rest as nat));
        }
        rest = rest / 60;
    }
    let ghost before = s@;
    s.push(glyph_at(rest));
    assert(s@ =~= before + alias_of(rest as nat));
    s
}

/// The value of a name grows with each glyph put before it.
proof fn value_of_suffix(s: Seq<char>, i: int)
    requires
        0 <= i <= s.len(),
        value_of(s) is Some,
    ensures
        value_of(s.subrange(i, s.len() as int)) is Some,
        value_of(s.subrange(i, s.len() as int))->0 <= value_of(s)->0,
    decreases i,
{
    if i == 0 {
        assert(s.subrange(0, s.len() as int) =~= s);
    } else {
        value_of_suffix(s.drop_first(), i - 1);
        assert(s.drop_first().subrange(i - 1, s.drop_first().len() as int) =~= s.subrange(
            i,
            s.len() as int,
        ));
    }
}

/// A name with a character that is no glyph has no value.
proof fn value_of_bad_glyph(s: Seq<char>, i: int)
    requires
        0 <= i < s.len(),
        glyph_value(s[i]) is None,
    ensures
        value_of(s) is None,
    decreases i,
{
    if i > 0 {
        value_of_bad_glyph(s.drop_first(), i - 1);
    }
}

/// The identifier that the name `s` stands for, where every character of
/// `s` is a glyph and the value fits the machine's range.
pub fn get_idx(s: &str) -> (r: Option<VarId>)
    ensures
        r == match value_of(s@) {
            Some(n) => if n <= usize::MAX {
                Some(n as usize)
            } else {
                None
            },
            None => None,
        },
{
    let chars = chars_of(s);
    let n = chars.len();
    let mut i: usize = n;
    let mut acc: usize = 0;
    proof {
        assert(chars@.subrange(n as int, n as int) =~= Seq::<char>::empty());
    }
    while i > 0
        invariant
            i <= n,
            n == chars.len(),
            chars@ == s@,
            value_of(chars@.subrange(i as int, n as int)) == Some(acc as nat),
        decreases i,
    {
        let ghost tail = chars@.subrange(i as int, n as int);
        let ghost next = chars@.subrange(i - 1, n as int);
        proof {
            assert(next.drop_first() =~= tail);
            assert(next[0] == chars[i - 1]);
        }
        let d = match glyph_index(chars[i - 1]) {
            Some(d) => d,
            None => {
                proof {
                    value_of_bad_glyph(chars@, i - 1);
                }
                return None;
            },
        };
        let grown = match acc.checked_mul(60) {
            Some(m) => m.checked_add(d),
            None => None,
        };
        match grown {
            Some(g) => {
                acc = g;
            },
            None => {
                proof {
                    assert(value_of(next) == Some((d + 60 * acc) as nat));
                    if value_of(chars@) is Some {
                        value_of_suffix(chars@, i - 1);
                    }
                }
                return None;
            },
        }
        i = i - 1;
    }
    proof {
        assert(chars@.subrange(0, n as int) =~= chars@);
    }
    Some(acc)
}

} // verus!
