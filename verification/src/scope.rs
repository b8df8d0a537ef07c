//! Definitions as text: names that stand for pieces of source text, and the
//! replacement of the names in a text by what they stand for.

use vstd::prelude::*;
use aho_corasick::{AhoCorasick, MatchKind};
use rustc_hash::{FxBuildHasher, FxHashMap};
use crate::alpha::{alpha_equiv, same_tree_same_nameless};
use crate::alphabet::{alias_of, get_alias};
use crate::notation::{term_of_text, try_from_str};
use crate::term::{Term, VarId};
use crate::lines::{bindings, pairs, parse_bindings};
use crate::text::{chars_of, push_str, texts};

verus! {

/// `aho_corasick::AhoCorasick`: an automaton that searches a text for
/// several patterns at once.
#[verifier::external_type_specification]
#[verifier::external_body]
pub struct ExAhoCorasick(AhoCorasick);

/// The patterns that an automaton searches for, in the order in which its
/// builder got them.
pub uninterp spec fn patterns_of(ac: AhoCorasick) -> Seq<Seq<char>>;

/// The automaton was built to search from any place of a text and to
/// report, of the matches that start first, the longest.
pub uninterp spec fn leftmost_longest(ac: AhoCorasick) -> bool;

/// What `AhoCorasick::replace_all` makes of the text `haystack`, on an
/// automaton for `patterns` that reports the leftmost longest matches: the
/// text with each match replaced by the one of `replacements` at the place
/// of its pattern.
pub uninterp spec fn replaced_all(
    patterns: Seq<Seq<char>>,
    replacements: Seq<Seq<char>>,
    haystack: Seq<char>,
) -> Seq<char>;

/// `needle` stands in `hay` at place `i`.
pub open spec fn occurs_at(hay: Seq<char>, needle: Seq<char>, i: int) -> bool {
    0 <= i && i + needle.len() <= hay.len() && hay.subrange(i, i + needle.len()) == needle
}

/// One of `patterns` stands somewhere in `hay`.
pub open spec fn occurs_any(patterns: Seq<Seq<char>>, hay: Seq<char>) -> bool {
    exists|k: int, i: int| 0 <= k < patterns.len() && #[trigger] occurs_at(hay, patterns[k], i)
}

/// Whether `AhoCorasickBuilder::build`, on a builder set to
/// `MatchKind::LeftmostLongest`, makes an automaton of `patterns`. The
/// builder refuses sets of patterns that are too large for it; which those
/// are depends on the patterns alone.
pub uninterp spec fn builds(patterns: Seq<Seq<char>>) -> bool;

/// `AhoCorasickBuilder::build`, on a builder set to
/// `MatchKind::LeftmostLongest`: an automaton for the patterns given, in
/// their order, where the builder makes one of them.
#[verifier::external_body]
fn automaton(patterns: &Vec<String>) -> (r: Option<AhoCorasick>)
    ensures
        (r is Some) == builds(texts(patterns@)),
        r is Some ==> patterns_of(r->0) == texts(patterns@) && leftmost_longest(r->0),
{
    AhoCorasick::builder().match_kind(MatchKind::LeftmostLongest).build(patterns).ok()
}

/// `AhoCorasick::replace_all`: the text with every match replaced. The
/// call wants as many replacements as the automaton has patterns.
#[verifier::external_body]
fn replace_all(ac: &AhoCorasick, haystack: &str, replace_with: &Vec<String>) -> (r: String)
    requires
        leftmost_longest(*ac),
        replace_with@.len() == patterns_of(*ac).len(),
    ensures
        r@ == replaced_all(patterns_of(*ac), texts(replace_with@), haystack@),
{
    ac.replace_all(haystack, replace_with)
}

/// `AhoCorasick::is_match`: whether one of the patterns stands somewhere
/// in the text.
#[verifier::external_body]
fn is_match(ac: &AhoCorasick, haystack: &str) -> (r: bool)
    requires
        leftmost_longest(*ac),
    ensures
        r == occurs_any(patterns_of(*ac), haystack@),
{
    ac.is_match(haystack)
}

/// `rustc_hash::FxBuildHasher`: the maker of the hashers of the maps of
/// `rustc_hash`.
#[verifier::external_type_specification]
#[verifier::external_body]
pub struct ExFxBuildHasher(FxBuildHasher);

/// The entries of a map from names to places: for each name that the map
/// holds, the place that it holds for it.
pub uninterp spec fn entries(m: FxHashMap<String, usize>) -> Map<Seq<char>, usize>;

/// `FxHashMap::default`: a map without entries.
#[verifier::external_body]
fn index_new() -> (index: FxHashMap<String, usize>)
    ensures
        entries(index) == (Map::<Seq<char>, usize>::empty()),
{
    FxHashMap::default()
}

/// `HashMap::insert`: the map holds `v` for `k` afterwards, whatever it
/// held for `k` before; its other entries stay.
#[verifier::external_body]
fn index_insert(m: &mut FxHashMap<String, usize>, k: String, v: usize)
    ensures
        entries(*final(m)) == entries(*old(m)).insert(k@, v),
{
    m.insert(k, v);
}

/// `HashMap::get`: what the map holds for `k`, where it holds something.
#[verifier::external_body]
fn index_get(m: &FxHashMap<String, usize>, k: &str) -> (r: Option<usize>)
    ensures
        r == if entries(*m).contains_key(k@) {
            Some(entries(*m)[k@])
        } else {
            None
        },
{
    m.get(k).copied()
}

/// The names and what they stand for, place by place.
#[derive(Debug)]
pub struct Scope {
    pub aliases: Vec<String>,
    pub defs: Vec<String>,
    /// For each name the first place where it is defined, as of the last
    /// time the definitions were indexed.
    pub indexes: FxHashMap<String, usize>,
    /// Definitions were added since the table was last brought up to date.
    pub need_update: bool,
}

/// Where `name` stands before place `n`, it stands first at the place that
/// `first_of` gives; where it does not, `first_of` gives no place before
/// `n`.
pub proof fn first_of_prefix(aliases: Seq<Seq<char>>, name: Seq<char>, from: int, n: int)
    requires
        0 <= from <= n <= aliases.len(),
    ensures
        from <= first_of(aliases, name, from) <= aliases.len(),
        first_of(aliases, name, from) < aliases.len() ==> aliases[first_of(aliases, name, from)]
            == name,
        forall|k: int| from <= k < first_of(aliases, name, from) ==> aliases[k] != name,
    decreases aliases.len() - from,
{
    if from < aliases.len() && aliases[from] != name {
        if from < n {
            first_of_prefix(aliases, name, from + 1, n);
        } else {
            first_of_prefix(aliases, name, from + 1, from + 1);
        }
    }
}

/// What can go wrong with definitions as text.
#[derive(Debug, PartialEq, Eq)]
pub enum ScopeError {
    /// The automaton for a set of patterns could not be built.
    Unbuilt,
    /// The name of every identifier stands in the text.
    NoFreeName,
    /// A name is defined a second time; with the name.
    Shadowing(String),
}

/// One pass over the texts from place `i` on: in each text in turn the
/// names are replaced by the texts that they stand for at that time.
pub open spec fn sweep(aliases: Seq<Seq<char>>, defs: Seq<Seq<char>>, i: int) -> Seq<Seq<char>>
    decreases defs.len() - i,
{
    if !(0 <= i < defs.len()) {
        defs
    } else {
        sweep(aliases, defs.update(i, replaced_all(aliases, defs, defs[i])), i + 1)
    }
}

/// The texts after passes over them, one after the other, until a pass
/// changes nothing or `rounds` passes are made.
pub open spec fn settle(aliases: Seq<Seq<char>>, defs: Seq<Seq<char>>, rounds: nat) -> Seq<
    Seq<char>,
>
    decreases rounds,
{
    if rounds == 0 {
        defs
    } else {
        let next = sweep(aliases, defs, 0);
        if next == defs {
            defs
        } else {
            settle(aliases, next, (rounds - 1) as nat)
        }
    }
}

/// Whether passes over the texts come to an end within `rounds` passes.
pub open spec fn settles(aliases: Seq<Seq<char>>, defs: Seq<Seq<char>>, rounds: nat) -> bool
    decreases rounds,
{
    if rounds == 0 {
        false
    } else {
        let next = sweep(aliases, defs, 0);
        next == defs || settles(aliases, next, (rounds - 1) as nat)
    }
}

/// The first place from `from` on where `name` stands among `aliases`; the
/// number of aliases where it stands at none.
pub open spec fn first_of(aliases: Seq<Seq<char>>, name: Seq<char>, from: int) -> int
    decreases aliases.len() - from,
{
    if !(0 <= from < aliases.len()) {
        aliases.len() as int
    } else if aliases[from] == name {
        from
    } else {
        first_of(aliases, name, from + 1)
    }
}

/// The texts with each name that is defined more than once standing, at
/// its first place, for the text of its last definition: from place `i` on,
/// each text is put at the first place of its name.
pub open spec fn indexed(aliases: Seq<Seq<char>>, defs: Seq<Seq<char>>, i: int) -> Seq<Seq<char>>
    decreases defs.len() - i,
{
    if !(0 <= i < defs.len() && i < aliases.len()) {
        defs
    } else {
        let j = first_of(aliases, aliases[i], 0);
        indexed(
            aliases,
            if 0 <= j < defs.len() {
                defs.update(j, defs[i])
            } else {
                defs
            },
            i + 1,
        )
    }
}

/// `text` is what the definition of `name` as `imp` is kept as: where
/// `name` stands in `imp`, the definition with its recursion solved; else
/// `imp` in round brackets.
pub open spec fn kept_as(name: Seq<char>, imp: Seq<char>, text: Seq<char>) -> bool {
    if occurs_in(imp, name) {
        exists|n: VarId|
            least_absent(imp, n) && text == fixed_text(
                alias_of(n as nat),
                #[trigger] replaced_all(seq![name], seq![alias_of(n as nat)], imp),
            )
    } else {
        text == "("@ + imp + ")"@
    }
}

/// The text `def` spells, in the bracketed notation, a term that is
/// alpha-equivalent to `key`.
pub open spec fn spells_like(def: Seq<char>, key: Term) -> bool {
    match term_of_text(def) {
        Ok(t) => alpha_equiv(t, key),
        Err(_) => false,
    }
}

/// The last place before `n` where a text of `defs` spells a term that is
/// alpha-equivalent to `key`.
pub open spec fn last_like(defs: Seq<Seq<char>>, key: Term, n: int) -> Option<int>
    decreases n,
{
    if !(0 < n <= defs.len()) {
        None
    } else if spells_like(defs[n - 1], key) {
        Some(n - 1)
    } else {
        last_like(defs, key, n - 1)
    }
}

/// `needle` stands somewhere in `hay`.
pub open spec fn occurs_in(hay: Seq<char>, needle: Seq<char>) -> bool {
    exists|i: int| occurs_at(hay, needle, i)
}

/// The name of the identifier `n` stands nowhere in `imp`, and that of
/// every lesser identifier stands somewhere in it.
pub open spec fn least_absent(imp: Seq<char>, n: VarId) -> bool {
    &&& !occurs_in(imp, alias_of(n as nat))
    &&& forall|m: VarId| m < n ==> occurs_in(imp, #[trigger] alias_of(m as nat))
}

/// The text of a definition that refers to itself, made a fixed point: the
/// fixed-point combinator applied to the body as a function of `name`.
pub open spec fn fixed_text(name: Seq<char>, body: Seq<char>) -> Seq<char> {
    "(^f.(^x.(f (x x)) ^x.(f (x x))) ^"@ + name + ".("@ + body + "))"@
}

/// Whether `needle` stands in `hay` at place `i`.
fn stands_at(hay: &Vec<char>, needle: &Vec<char>, i: usize) -> (r: bool)
    requires
        i + needle.len() <= hay.len(),
    ensures
        r == occurs_at(hay@, needle@, i as int),
{
    let mut k: usize = 0;
    while k < needle.len()
        invariant
            k <= needle.len(),
            i + needle.len() <= hay.len(),
            forall|j: int| 0 <= j < k ==> hay[i + j] == needle[j],
        decreases needle.len() - k,
    {
        if hay[i + k] != needle[k] {
            proof {
                let part = hay@.subrange(i as int, i + needle.len());
                assert(part[k as int] == hay[i + k]);
            }
            return false;
        }
        k = k + 1;
    }
    assert(hay@.subrange(i as int, i + needle.len()) =~= needle@);
    true
}

/// Whether the text `needle` stands somewhere in the text `hay`.
pub fn occurs(hay: &str, needle: &str) -> (r: bool)
    ensures
        r == occurs_in(hay@, needle@),
{
    let text = chars_of(hay);
    let word = chars_of(needle);
    if word.len() > text.len() {
        return false;
    }
    let last = text.len() - word.len();
    let mut i: usize = 0;
    loop
        invariant
            i <= last,
            last == text.len() - word.len(),
            word.len() <= text.len(),
            text@ == hay@,
            word@ == needle@,
            forall|j: int| 0 <= j < i ==> !occurs_at(text@, word@, j),
        decreases last - i,
    {
        if stands_at(&text, &word, i) {
            assert(occurs_at(hay@, needle@, i as int));
            return true;
        }
        if i == last {
            return false;
        }
        i = i + 1;
    }
}

/// The text of a self-referring definition made a fixed point.
pub fn fixed_point_text(name: &str, body: &str) -> (s: String)
    ensures
        s@ == fixed_text(name@, body@),
{
    let mut s = String::new();
    push_str(&mut s, "(^f.(^x.(f (x x)) ^x.(f (x x))) ^");
    push_str(&mut s, name);
    push_str(&mut s, ".(");
    push_str(&mut s, body);
    push_str(&mut s, "))");
    assert(s@ =~= fixed_text(name@, body@));
    s
}

/// A text after a replacement, with whether it differs from the text
/// before.
pub fn delta_outcome(result: String, before: &str) -> (out: (String, bool))
    ensures
        out.0 == result,
        out.1 == (result@ != before@),
{
    let changed = !(result == before.to_owned());
    (result, changed)
}

/// The search for the least identifier whose name does not stand in
/// `imp`, from the identifier `m` on: each name in turn is made an
/// automaton of and looked for. The search fails where an automaton cannot
/// be built, and where it has tried the greatest identifier in vain.
pub open spec fn free_name_from(imp: Seq<char>, m: int) -> Result<VarId, ScopeError>
    decreases usize::MAX - m,
{
    if !(0 <= m <= usize::MAX) {
        Err(ScopeError::NoFreeName)
    } else if !builds(seq![alias_of(m as nat)]) {
        Err(ScopeError::Unbuilt)
    } else if !occurs_in(imp, alias_of(m as nat)) {
        Ok(m as usize)
    } else if m == usize::MAX {
        Err(ScopeError::NoFreeName)
    } else {
        free_name_from(imp, m + 1)
    }
}

/// The text of the definition of `def` as `imp` with its recursion solved:
/// nothing where `def` does not stand in `imp`; else the fixed point over
/// the least identifier whose name does not stand in `imp`, with that name
/// in place of `def`. The solving fails where the search for the name
/// fails, and where no automaton can be built of `def`.
pub open spec fn solved(def: Seq<char>, imp: Seq<char>) -> Result<Option<Seq<char>>, ScopeError> {
    if !occurs_in(imp, def) {
        Ok(None)
    } else {
        match free_name_from(imp, 0) {
            Ok(n) => if builds(seq![def]) {
                Ok(
                    Some(
                        fixed_text(
                            alias_of(n as nat),
                            replaced_all(seq![def], seq![alias_of(n as nat)], imp),
                        ),
                    ),
                )
            } else {
                Err(ScopeError::Unbuilt)
            },
            Err(e) => Err(e),
        }
    }
}

/// Why a text reads as no table of definitions.
pub enum ReadFault {
    /// An automaton could not be built.
    Unbuilt,
    /// The name of every identifier stands in the text of a definition.
    NoFreeName,
    /// A name is defined a second time; with the name.
    Shadowing(Seq<char>),
}

/// The name of the definition at place `i` is that of a definition before
/// it.
pub open spec fn seen_before(b: Seq<(Seq<char>, Seq<char>)>, i: int) -> bool {
    exists|k: int| 0 <= k < i && (#[trigger] b[k]).0 == b[i].0
}

/// The texts that the definitions `b` from place `i` on are kept as, after
/// the texts `acc`: the recursion of each is solved, then its name is looked
/// for among the names before it. The first fault ends the reading.
pub open spec fn read_from(b: Seq<(Seq<char>, Seq<char>)>, i: int, acc: Seq<Seq<char>>) -> Result<
    Seq<Seq<char>>,
    ReadFault,
>
    decreases b.len() - i,
{
    if !(0 <= i < b.len()) {
        Ok(acc)
    } else {
        match solved(b[i].0, b[i].1) {
            Err(e) => Err(
                if e is Unbuilt {
                    ReadFault::Unbuilt
                } else {
                    ReadFault::NoFreeName
                },
            ),
            Ok(text) => if seen_before(b, i) {
                Err(ReadFault::Shadowing(b[i].0))
            } else {
                read_from(
                    b,
                    i + 1,
                    acc.push(
                        match text {
                            Some(t) => t,
                            None => "("@ + b[i].1 + ")"@,
                        },
                    ),
                )
            },
        }
    }
}

/// The result `r` is the outcome `read` of reading a text.
pub open spec fn is_read(r: Result<Scope, ScopeError>, read: Result<Seq<Seq<char>>, ReadFault>) -> bool {
    match read {
        Ok(kept) => r is Ok && texts(r->Ok_0.defs@) == kept,
        Err(ReadFault::Unbuilt) => r is Err && r->Err_0 is Unbuilt,
        Err(ReadFault::NoFreeName) => r is Err && r->Err_0 is NoFreeName,
        Err(ReadFault::Shadowing(name)) => r is Err && r->Err_0 is Shadowing
            && r->Err_0->Shadowing_0@ == name,
    }
}

/// `r` is what the text `s` reads as, as a table of definitions: the
/// outcome of `read_from` on the definitions that the text holds.
///
/// - A table holds the definitions of the text in their order, each name
///   once, each text kept as `kept_as` says, and is marked as not up to
///   date.
/// - The error of a name defined twice holds such a name.
/// - Any other error comes only of a definition that refers to itself.
pub open spec fn reads_as(s: Seq<char>, r: Result<Scope, ScopeError>) -> bool {
    &&& is_read(r, read_from(bindings(s), 0, Seq::empty()))
    &&& match r {
        Ok(scope) => {
            &&& scope.wf()
            &&& scope.need_update
            &&& scope.aliases@.len() == bindings(s).len()
            &&& forall|i: int|
                0 <= i < bindings(s).len() ==> (#[trigger] scope.aliases@[i])@ == bindings(s)[i].0
                    && kept_as(bindings(s)[i].0, bindings(s)[i].1, scope.defs@[i]@)
            &&& forall|i: int, j: int|
                0 <= i < j < bindings(s).len() ==> (#[trigger] bindings(s)[i]).0 != (
                #[trigger] bindings(s)[j]).0
        },
        Err(ScopeError::Shadowing(name)) => exists|i: int, j: int|
            0 <= i < j < bindings(s).len() && (#[trigger] bindings(s)[i]).0 == name@ && (
            #[trigger] bindings(s)[j]).0 == name@,
        Err(_) => exists|i: int|
            0 <= i < bindings(s).len() && occurs_in(
                (#[trigger] bindings(s)[i]).1,
                bindings(s)[i].0,
            ),
    }
}

impl core::str::FromStr for Scope {
    type Err = ScopeError;

    /// The table of the definitions that a text holds, as `Scope::from_str`
    /// reads it.
    fn from_str(s: &str) -> (r: Result<Scope, ScopeError>)
        ensures
            reads_as(s@, r),
    {
        Scope::from_str(s)
    }
}

impl Scope {
    /// The least identifier whose name does not stand in the text `imp`.
    pub fn get_free_name(imp: &str) -> (r: Result<VarId, ScopeError>)
        ensures
            r == free_name_from(imp@, 0),
            match r {
                Ok(n) => least_absent(imp@, n),
                Err(e) => e is Unbuilt || (e is NoFreeName && forall|m: VarId|
                    occurs_in(imp@, #[trigger] alias_of(m as nat))),
            },
    {
        let mut free: usize = 0;
        loop
            invariant
                forall|m: VarId| m < free ==> occurs_in(imp@, #[trigger] alias_of(m as nat)),
                free_name_from(imp@, 0) == free_name_from(imp@, free as int),
            decreases usize::MAX - free,
        {
            let mut names: Vec<String> = Vec::new();
            names.push(get_alias(free));
            proof {
                assert(texts(names@) =~= seq![alias_of(free as nat)]);
            }
            let ac = match automaton(&names) {
                Some(ac) => ac,
                None => {
                    return Err(ScopeError::Unbuilt);
                },
            };
            let found = is_match(&ac, imp);
            proof {
                let name = alias_of(free as nat);
                assert(texts(names@) =~= seq![name]);
                if found {
                    let (k, i) = choose|k: int, i: int|
                        0 <= k < seq![name].len() && #[trigger] occurs_at(imp@, seq![name][k], i);
                    assert(occurs_at(imp@, name, i));
                }
                if occurs_in(imp@, name) {
                    let i = choose|i: int| occurs_at(imp@, name, i);
                    assert(occurs_at(imp@, seq![name][0], i));
                }
            }
            if !found {
                return Ok(free);
            }
            if free == usize::MAX {
                proof {
                    assert forall|m: VarId| occurs_in(imp@, #[trigger] alias_of(m as nat)) by {
                        if m == free {
                        }
                    }
                }
                return Err(ScopeError::NoFreeName);
            }
            free = free + 1;
        }
    }

    /// The text of a definition that refers to itself, with the recursion
    /// solved: where the name `def` stands in its own text `imp`, the name
    /// is replaced by that of the least identifier whose name does not stand
    /// in `imp`, and the fixed-point combinator is applied to the text as a
    /// function of that identifier. `None` where `def` does not stand in
    /// `imp`.
    pub fn solve_recursion(def: &str, imp: &str) -> (r: Result<Option<String>, ScopeError>)
        ensures
            match solved(def@, imp@) {
                Ok(Some(text)) => r is Ok && r->Ok_0 is Some && r->Ok_0->0@ == text,
                Ok(None) => r is Ok && r->Ok_0 is None,
                Err(e) => r is Err && r->Err_0 == e,
            },
            match r {
                Ok(Some(text)) => occurs_in(imp@, def@) && exists|n: VarId|
                    least_absent(imp@, n) && text@ == fixed_text(
                        alias_of(n as nat),
                        #[trigger] replaced_all(seq![def@], seq![alias_of(n as nat)], imp@),
                    ),
                Ok(None) => !occurs_in(imp@, def@),
                Err(e) => occurs_in(imp@, def@) && (e is Unbuilt || (e is NoFreeName
                    && forall|m: VarId| occurs_in(imp@, #[trigger] alias_of(m as nat)))),
            },
    {
        if !occurs(imp, def) {
            return Ok(None);
        }
        let free = match Scope::get_free_name(imp) {
            Ok(free) => free,
            Err(e) => {
                return Err(e);
            },
        };
        let mut names: Vec<String> = Vec::new();
        names.push(def.to_owned());
        proof {
            assert(texts(names@) =~= seq![def@]);
        }
        let ac = match automaton(&names) {
            Some(ac) => ac,
            None => {
                return Err(ScopeError::Unbuilt);
            },
        };
        let name = get_alias(free);
        let mut with: Vec<String> = Vec::new();
        with.push(name.clone());
        let body = replace_all(&ac, imp, &with);
        proof {
            assert(texts(names@) =~= seq![def@]);
            assert(texts(with@) =~= seq![alias_of(free as nat)]);
        }
        Ok(Some(fixed_point_text(name.as_str(), body.as_str())))
    }

    /// The table of the definitions that a text holds, one on each line:
    /// `name = text`. A definition that refers to itself is kept with its
    /// recursion solved, any other with its text in round brackets. A name
    /// that is defined a second time is refused.
    pub fn from_str(s: &str) -> (r: Result<Scope, ScopeError>)
        ensures
            reads_as(s@, r),
    {
        let found = parse_bindings(s);
        let mut scope = Scope {
            aliases: Vec::new(),
            defs: Vec::new(),
            indexes: index_new(),
            need_update: true,
        };
        let mut i: usize = 0;
        proof {
            assert(texts(scope.defs@) =~= Seq::empty());
        }
        while i < found.len()
            invariant
                i <= found.len(),
                pairs(found@) == bindings(s@),
                scope.wf(),
                scope.need_update,
                scope.aliases@.len() == i,
                read_from(bindings(s@), 0, Seq::empty()) == read_from(
                    bindings(s@),
                    i as int,
                    texts(scope.defs@),
                ),
                forall|k: int|
                    0 <= k < i ==> (#[trigger] scope.aliases@[k])@ == bindings(s@)[k].0 && kept_as(
                        bindings(s@)[k].0,
                        bindings(s@)[k].1,
                        scope.defs@[k]@,
                    ),
                forall|k: int, j: int|
                    0 <= k < j < i ==> (#[trigger] bindings(s@)[k]).0 != (#[trigger] bindings(
                        s@,
                    )[j]).0,
            decreases found.len() - i,
        {
            let name = found[i].0.clone();
            let imp = &found[i].1;
            assert(pairs(found@)[i as int] == (found@[i as int].0@, found@[i as int].1@));
            let text = match Scope::solve_recursion(name.as_str(), imp.as_str()) {
                Ok(Some(text)) => text,
                Ok(None) => {
                    let mut text = String::new();
                    push_str(&mut text, "(");
                    push_str(&mut text, imp.as_str());
                    push_str(&mut text, ")");
                    assert(text@ =~= "("@ + imp@ + ")"@);
                    text
                },
                Err(e) => {
                    return Err(e);
                },
            };
            let mut k: usize = 0;
            while k < i
                invariant
                    k <= i < found.len(),
                    scope.aliases@.len() == i,
                    bindings(s@).len() == found@.len(),
                    name@ == bindings(s@)[i as int].0,
                    solved(bindings(s@)[i as int].0, bindings(s@)[i as int].1) is Ok,
                    read_from(bindings(s@), 0, Seq::empty()) == read_from(
                        bindings(s@),
                        i as int,
                        texts(scope.defs@),
                    ),
                    forall|j: int|
                        0 <= j < i ==> (#[trigger] scope.aliases@[j])@ == bindings(s@)[j].0,
                    forall|j: int| 0 <= j < k ==> (#[trigger] scope.aliases@[j])@ != name@,
                decreases i - k,
            {
                if scope.aliases[k] == name {
                    proof {
                        let shown = bindings(s@);
                        assert(scope.aliases@[k as int]@ == shown[k as int].0);
                        assert(shown[k as int].0 == name@ && shown[i as int].0 == name@);
                        assert(seen_before(shown, i as int));
                    }
                    return Err(ScopeError::Shadowing(name));
                }
                k = k + 1;
            }
            let ghost before = scope;
            scope.aliases.push(name);
            scope.defs.push(text);
            proof {
                let shown = bindings(s@);
                assert(!seen_before(shown, i as int)) by {
                    if seen_before(shown, i as int) {
                        let k = choose|k: int| 0 <= k < i && (#[trigger] shown[k]).0 == shown[i as int].0;
                        assert(before.aliases@[k]@ == shown[k].0);
                    }
                }
                assert(texts(scope.defs@) =~= texts(before.defs@).push(text@));
                assert forall|k: int| 0 <= k < i + 1 implies (#[trigger] scope.aliases@[k])@
                    == shown[k].0 && kept_as(shown[k].0, shown[k].1, scope.defs@[k]@) by {
                    if k < i {
                        assert(scope.aliases@[k] == before.aliases@[k]);
                        assert(scope.defs@[k] == before.defs@[k]);
                    }
                }
                assert forall|k: int, j: int| 0 <= k < j < i + 1 implies (#[trigger] shown[k]).0 != (
                #[trigger] shown[j]).0 by {
                    if j == i {
                        assert(before.aliases@[k]@ == shown[k].0);
                    }
                }
            }
            i = i + 1;
        }
        Ok(scope)
    }

    /// Each name has one text that it stands for.
    pub open spec fn wf(self) -> bool {
        self.aliases@.len() == self.defs@.len()
    }

    /// A table without definitions, up to date.
    pub fn new() -> (s: Scope)
        ensures
            s.wf(),
            s.aliases@.len() == 0,
            s.index_fresh(),
            !s.need_update,
    {
        Scope { aliases: Vec::new(), defs: Vec::new(), indexes: index_new(), need_update: false }
    }

    /// Replaces, in the text of every definition, the names by the texts
    /// that they stand for, and again, until nothing changes any more or
    /// `rounds` passes over the definitions are made. Returns whether
    /// nothing changes any more.
    pub fn internal_delta(&mut self, rounds: usize) -> (r: Result<bool, ScopeError>)
        requires
            old(self).wf(),
        ensures
            final(self).wf(),
            final(self).aliases == old(self).aliases,
            final(self).need_update == old(self).need_update,
            (r is Ok) == builds(texts(old(self).aliases@)),
            match r {
                Ok(done) => {
                    &&& texts(final(self).defs@) == settle(
                        texts(old(self).aliases@),
                        texts(old(self).defs@),
                        rounds as nat,
                    )
                    &&& done == settles(
                        texts(old(self).aliases@),
                        texts(old(self).defs@),
                        rounds as nat,
                    )
                },
                Err(e) => e is Unbuilt && final(self).defs == old(self).defs,
            },
    {
        let ac = match automaton(&self.aliases) {
            Some(ac) => ac,
            None => {
                return Err(ScopeError::Unbuilt);
            },
        };
        let ghost aliases = texts(self.aliases@);
        let mut left = rounds;
        while left > 0
            invariant
                self.wf(),
                self.aliases == old(self).aliases,
                self.need_update == old(self).need_update,
                aliases == texts(self.aliases@),
                aliases == texts(old(self).aliases@),
                builds(aliases),
                patterns_of(ac) == aliases,
                leftmost_longest(ac),
                settle(aliases, texts(old(self).defs@), rounds as nat) == settle(
                    aliases,
                    texts(self.defs@),
                    left as nat,
                ),
                settles(aliases, texts(old(self).defs@), rounds as nat) == settles(
                    aliases,
                    texts(self.defs@),
                    left as nat,
                ),
            decreases left,
        {
            let ghost start = texts(self.defs@);
            let mut changed = false;
            let mut i: usize = 0;
            while i < self.defs.len()
                invariant
                    self.wf(),
                    self.aliases == old(self).aliases,
                    self.need_update == old(self).need_update,
                    aliases == texts(self.aliases@),
                    patterns_of(ac) == aliases,
                    leftmost_longest(ac),
                    i <= self.defs.len(),
                    start.len() == self.defs@.len(),
                    sweep(aliases, start, 0) == sweep(aliases, texts(self.defs@), i as int),
                    forall|j: int| i <= j < start.len() ==> texts(self.defs@)[j] == start[j],
                    changed == (texts(self.defs@) != start),
                decreases self.defs.len() - i,
            {
                let ghost before = texts(self.defs@);
                let result = replace_all(&ac, self.defs[i].as_str(), &self.defs);
                let (result, diff) = delta_outcome(result, self.defs[i].as_str());
                proof {
                    assert(texts(self.defs@.update(i as int, result)) =~= before.update(
                        i as int,
                        result@,
                    ));
                    assert(before[i as int] == start[i as int]);
                    if diff {
                        assert(before.update(i as int, result@)[i as int] != start[i as int]);
                    } else {
                        assert(before.update(i as int, result@) =~= before);
                    }
                }
                self.defs.set(i, result);
                if diff {
                    changed = true;
                }
                i = i + 1;
            }
            if !changed {
                return Ok(true);
            }
            left = left - 1;
        }
        Ok(false)
    }

    /// The index holds, for each name of the table, the first place where
    /// the name is defined, and nothing else.
    pub open spec fn index_fresh(self) -> bool {
        let names = texts(self.aliases@);
        forall|name: Seq<char>|
            {
                &&& (#[trigger] entries(self.indexes).contains_key(name)) == names.contains(name)
                &&& names.contains(name) ==> entries(self.indexes)[name] == first_of(
                    names,
                    name,
                    0,
                )
            }
    }

    /// Indexes the definitions: the first place of each name is put down,
    /// and each name that is defined more than once gets, at its first
    /// place, the text of its last definition.
    pub fn index(&mut self)
        requires
            old(self).wf(),
        ensures
            final(self).wf(),
            final(self).aliases == old(self).aliases,
            final(self).need_update == old(self).need_update,
            texts(final(self).defs@) == indexed(
                texts(old(self).aliases@),
                texts(old(self).defs@),
                0,
            ),
            final(self).index_fresh(),
    {
        let ghost aliases = texts(self.aliases@);
        self.indexes = index_new();
        let mut i: usize = 0;
        while i < self.defs.len()
            invariant
                self.wf(),
                self.aliases == old(self).aliases,
                self.need_update == old(self).need_update,
                aliases == texts(self.aliases@),
                i <= self.defs.len(),
                indexed(aliases, texts(old(self).defs@), 0) == indexed(
                    aliases,
                    texts(self.defs@),
                    i as int,
                ),
                forall|name: Seq<char>|
                    {
                        &&& (#[trigger] entries(self.indexes).contains_key(name)) == aliases.take(
                            i as int,
                        ).contains(name)
                        &&& entries(self.indexes).contains_key(name) ==> entries(
                            self.indexes,
                        )[name] == first_of(aliases, name, 0)
                    },
            decreases self.defs.len() - i,
        {
            let ghost name = aliases[i as int];
            let ghost before = texts(self.defs@);
            let ghost held = entries(self.indexes);
            proof {
                assert(name == self.aliases@[i as int]@);
                first_of_prefix(aliases, name, 0, i as int);
                if aliases.take(i as int).contains(name) {
                    let k = choose|k: int|
                        0 <= k < aliases.take(i as int).len() && aliases.take(i as int)[k] == name;
                    assert(aliases[k] == name);
                } else {
                    assert forall|k: int| 0 <= k < i implies aliases[k] != name by {
                        assert(aliases.take(i as int)[k] == aliases[k]);
                    }
                }
            }
            match index_get(&self.indexes, self.aliases[i].as_str()) {
                Some(j) => {
                    let text = self.defs[i].clone();
                    proof {
                        assert(texts(self.defs@.update(j as int, text)) =~= before.update(
                            j as int,
                            before[i as int],
                        ));
                    }
                    self.defs.set(j, text);
                },
                None => {
                    let key = self.aliases[i].clone();
                    index_insert(&mut self.indexes, key, i);
                    proof {
                        assert(before.update(i as int, before[i as int]) =~= before);
                    }
                },
            }
            proof {
                let prev = aliases.take(i as int);
                let next = aliases.take(i + 1);
                assert(next =~= prev.push(name));
                assert forall|other: Seq<char>|
                    {
                        &&& (#[trigger] entries(self.indexes).contains_key(other)) == next.contains(
                            other,
                        )
                        &&& entries(self.indexes).contains_key(other) ==> entries(
                            self.indexes,
                        )[other] == first_of(aliases, other, 0)
                    } by {
                    if prev.contains(other) {
                        let k = choose|k: int| 0 <= k < prev.len() && prev[k] == other;
                        assert(next[k] == other);
                    }
                    if other == name {
                        assert(next[i as int] == name);
                    }
                    if next.contains(other) && other != name {
                        let k = choose|k: int| 0 <= k < next.len() && next[k] == other;
                        assert(prev[k] == other);
                    }
                    assert(held.contains_key(other) == prev.contains(other));
                }
            }
            i = i + 1;
        }
        proof {
            assert(aliases.take(self.defs@.len() as int) =~= aliases);
        }
    }

    /// The text that `name` stands for, by the index.
    pub fn get(&self, name: &str) -> (r: Option<&String>)
        requires
            self.wf(),
            self.index_fresh(),
        ensures
            match r {
                Some(text) => texts(self.aliases@).contains(name@) && *text == self.defs@[first_of(
                    texts(self.aliases@),
                    name@,
                    0,
                )],
                None => !texts(self.aliases@).contains(name@),
            },
    {
        match index_get(&self.indexes, name) {
            Some(j) => {
                proof {
                    first_of_prefix(texts(self.aliases@), name@, 0, 0);
                    let k = choose|k: int|
                        0 <= k < texts(self.aliases@).len() && texts(self.aliases@)[k] == name@;
                    assert(first_of(texts(self.aliases@), name@, 0) <= k);
                }
                Some(&self.defs[j])
            },
            None => None,
        }
    }

    /// Brings a table that definitions were added to up to date: the names
    /// in the texts of the definitions are replaced by what they stand for,
    /// in at most `rounds` passes, and each name that is defined more than
    /// once gets, at its first place, the text of its last definition.
    /// Returns whether the replacing came to an end.
    pub fn update(&mut self, rounds: usize) -> (r: Result<bool, ScopeError>)
        requires
            old(self).wf(),
        ensures
            final(self).wf(),
            final(self).aliases == old(self).aliases,
            (r is Ok) == (!old(self).need_update || builds(texts(old(self).aliases@))),
            r is Ok && old(self).need_update ==> final(self).index_fresh(),
            !old(self).need_update ==> r == Ok::<bool, ScopeError>(true) && final(self).defs == old(
                self,
            ).defs && !final(self).need_update,
            old(self).need_update ==> match r {
                Ok(done) => {
                    &&& !final(self).need_update
                    &&& texts(final(self).defs@) == indexed(
                        texts(old(self).aliases@),
                        settle(
                            texts(old(self).aliases@),
                            texts(old(self).defs@),
                            rounds as nat,
                        ),
                        0,
                    )
                    &&& done == settles(
                        texts(old(self).aliases@),
                        texts(old(self).defs@),
                        rounds as nat,
                    )
                },
                Err(e) => {
                    &&& e is Unbuilt
                    &&& final(self).defs == old(self).defs
                    &&& final(self).need_update
                },
            },
    {
        if !self.need_update {
            return Ok(true);
        }
        let done = match self.internal_delta(rounds) {
            Ok(done) => done,
            Err(e) => {
                return Err(e);
            },
        };
        self.index();
        self.need_update = false;
        Ok(done)
    }

    /// Brings the table up to date, and replaces the names in the text `b`
    /// by what they stand for.
    pub fn delta_redex(&mut self, b: &str, rounds: usize) -> (r: Result<(String, bool), ScopeError>)
        requires
            old(self).wf(),
        ensures
            final(self).wf(),
            final(self).aliases == old(self).aliases,
            (r is Ok) == builds(texts(old(self).aliases@)),
            r is Ok ==> {
                &&& r->Ok_0.0@ == replaced_all(
                    texts(final(self).aliases@),
                    texts(final(self).defs@),
                    b@,
                )
                &&& r->Ok_0.1 == (r->Ok_0.0@ != b@)
                &&& !final(self).need_update
            },
            r is Err ==> r->Err_0 is Unbuilt,
    {
        match self.update(rounds) {
            Ok(_) => {},
            Err(e) => {
                return Err(e);
            },
        }
        self.redex_by_delta(b)
    }

    /// The name of the last definition whose text spells, in the bracketed
    /// notation, a term that is alpha-equivalent to `key`.
    pub fn get_from_alpha_key(&self, key: &Term) -> (r: Option<&String>)
        requires
            self.wf(),
        ensures
            match last_like(texts(self.defs@), *key, self.defs@.len() as int) {
                Some(k) => r is Some && *r->0 == self.aliases@[k],
                None => r is None,
            },
    {
        let mut i: usize = self.defs.len();
        while i > 0
            invariant
                self.wf(),
                i <= self.defs.len(),
                last_like(texts(self.defs@), *key, self.defs@.len() as int) == last_like(
                    texts(self.defs@),
                    *key,
                    i as int,
                ),
            decreases i,
        {
            assert(texts(self.defs@)[i - 1] == self.defs@[i - 1]@);
            let like = match try_from_str(self.defs[i - 1].as_str()) {
                Ok(t) => {
                    proof {
                        let spelled = term_of_text(self.defs@[i - 1]@)->Ok_0;
                        same_tree_same_nameless(t, spelled, Seq::empty());
                    }
                    t.alpha_eq(key)
                },
                Err(_) => false,
            };
            if like {
                return Some(&self.aliases[i - 1]);
            }
            i = i - 1;
        }
        None
    }

    /// Adds the definitions of `rhs` after those of the table.
    pub fn extend(&mut self, rhs: Scope)
        requires
            old(self).wf(),
            rhs.wf(),
        ensures
            final(self).wf(),
            final(self).aliases@ == old(self).aliases@ + rhs.aliases@,
            final(self).defs@ == old(self).defs@ + rhs.defs@,
            final(self).need_update,
    {
        let Scope { aliases, defs, indexes: _, need_update: _ } = rhs;
        let mut aliases = aliases;
        let mut defs = defs;
        self.defs.append(&mut defs);
        self.aliases.append(&mut aliases);
        self.need_update = true;
    }

    /// Replaces the names in the text `b` by what they stand for, and says
    /// whether that changed the text. Where more than one name stands at a
    /// place, the longest is replaced.
    pub fn redex_by_delta(&self, b: &str) -> (r: Result<(String, bool), ScopeError>)
        requires
            self.wf(),
        ensures
            (r is Ok) == builds(texts(self.aliases@)),
            r is Ok ==> {
                &&& r->Ok_0.0@ == replaced_all(texts(self.aliases@), texts(self.defs@), b@)
                &&& r->Ok_0.1 == (r->Ok_0.0@ != b@)
            },
            r is Err ==> r->Err_0 is Unbuilt,
    {
        let ac = match automaton(&self.aliases) {
            Some(ac) => ac,
            None => {
                return Err(ScopeError::Unbuilt);
            },
        };
        let result = replace_all(&ac, b, &self.defs);
        Ok(delta_outcome(result, b))
    }
}

} // verus!
