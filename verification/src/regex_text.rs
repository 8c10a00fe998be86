//! Regular-expression matching over text, and splicing replacements into
//! the text between the matches.
//!
//! The matching itself is the `regex` crate's; what is proved here is how
//! matches are cut out of a text and how replacements are put back.

use vstd::prelude::*;
use crate::link_index::opt_view;
use crate::text::{chars_of, push_all, string_of, views_of};

verus! {

/// The character views of a list of character vectors.
pub open spec fn views_of_vecs(v: Seq<Vec<char>>) -> Seq<Seq<char>> {
    v.map_values(|x: Vec<char>| x@)
}

// ---------------------------------------------------------------------------
// Regular expressions
// ---------------------------------------------------------------------------

/// One match of a regular expression in a text, with the text before it.
pub struct RegexPiece {
    /// The text between the end of the previous match (or the start of the
    /// text) and this match.
    pub before: String,
    /// The whole match.
    pub matched: String,
    /// The text of each requested named group, `None` when the group took no
    /// part in the match.
    pub groups: Vec<Option<String>>,
}

/// The value of a [`RegexPiece`].
pub type PieceView = (Seq<char>, Seq<char>, Seq<Option<Seq<char>>>);

/// The value of each piece.
pub open spec fn piece_views(ps: Seq<RegexPiece>) -> Seq<PieceView> {
    ps.map_values(|p: RegexPiece| (p.before@, p.matched@, p.groups@.map_values(|g: Option<String>| opt_view(g))))
}

/// The text the pieces cover: each piece's preceding text and its match.
pub open spec fn pieces_text(ps: Seq<PieceView>) -> Seq<char>
    decreases ps.len(),
{
    if ps.len() == 0 {
        Seq::empty()
    } else {
        pieces_text(ps.drop_last()) + ps.last().0 + ps.last().1
    }
}

/// The successive non-overlapping matches of the regular expression
/// `pattern` in `text` (leftmost first), each with the text before it and
/// the named groups `names`, and the text after the last match; `None` when
/// `pattern` is not a valid expression.
pub uninterp spec fn regex_pieces(pattern: Seq<char>, text: Seq<char>, names: Seq<Seq<char>>) -> Option<
    (Seq<PieceView>, Seq<char>),
>;

/// The views of group names.
pub open spec fn name_views(names: Seq<&str>) -> Seq<Seq<char>> {
    names.map_values(|n: &str| n@)
}

/// Compiles `pattern` (`regex::Regex::new`) and walks its matches in `text`
/// (`Regex::captures_iter`), cutting `text` at each match. Besides naming
/// the result, the contract states what the crate documents of
/// `captures_iter`: the matches are successive and do not overlap, so the
/// pieces and the tail put back together are `text`; and each piece has one
/// entry per requested group.
#[verifier::external_body]
pub(crate) fn regex_split(pattern: &str, text: &str, names: &[&str]) -> (r: Option<(Vec<RegexPiece>, String)>)
    ensures
        match r {
            None => regex_pieces(pattern@, text@, name_views(names@)) is None,
            Some(p) => {
                &&& regex_pieces(pattern@, text@, name_views(names@)) == Some((piece_views(p.0@), p.1@))
                &&& pieces_text(piece_views(p.0@)) + p.1@ == text@
                &&& forall|i: int| 0 <= i < p.0@.len() ==> (#[trigger] p.0@[i]).groups@.len() == names@.len()
            },
        },
{
    let re = regex::Regex::new(pattern).ok()?;
    let mut pieces = Vec::new();
    let mut last: usize = 0;
    for caps in re.captures_iter(text) {
        let m = caps.get(0)?;
        let groups = names.iter().map(|n| caps.name(n).map(|g| g.as_str().to_string())).collect();
        pieces.push(RegexPiece { before: text[last..m.start()].to_string(), matched: m.as_str().to_string(), groups });
        last = m.end();
    }
    Some((pieces, text[last..].to_string()))
}

#[verifier::external_type_specification]
#[verifier::external_body]
pub struct ExRegex(regex::Regex);

/// Whether `regex::Regex::new` accepts `pattern`.
pub uninterp spec fn regex_accepts(pattern: Seq<char>) -> bool;

/// A compiled regular expression and the pattern it was compiled from.
pub struct CompiledRegex {
    re: regex::Regex,
    pattern: Ghost<Seq<char>>,
}

impl CompiledRegex {
    /// The pattern the expression was compiled from.
    pub closed spec fn pattern(&self) -> Seq<char> {
        self.pattern@
    }

    /// The compiled expression held.
    pub closed spec fn regex(&self) -> regex::Regex {
        self.re
    }

    /// The compiled expression.
    pub fn as_regex(&self) -> (r: &regex::Regex)
        ensures
            *r == self.regex(),
    {
        &self.re
    }
}

/// `regex::Regex::new`: the contract names whether the crate accepts
/// `pattern` and records that the expression handed back is compiled from
/// `pattern`.
#[verifier::external_body]
pub(crate) fn compile_regex(pattern: &str) -> (r: Option<CompiledRegex>)
    ensures
        r is Some == regex_accepts(pattern@),
        r matches Some(c) ==> c.pattern() == pattern@,
{
    regex::Regex::new(pattern).ok().map(|re| CompiledRegex { re, pattern: Ghost(pattern@) })
}

/// Whether an expression compiled from `pattern` matches somewhere in
/// `text`.
pub uninterp spec fn regex_is_match(pattern: Seq<char>, text: Seq<char>) -> bool;

/// `regex::Regex::is_match`: the contract names the answer as a function
/// of the pattern the expression was compiled from and the text.
#[verifier::external_body]
pub(crate) fn regex_matches(re: &CompiledRegex, text: &str) -> (r: bool)
    ensures
        r == regex_is_match(re.pattern(), text@),
{
    re.re.is_match(text)
}

/// A character with a meaning in a regular expression.
pub open spec fn is_meta_character(c: char) -> bool {
    c == '\\' || c == '.' || c == '+' || c == '*' || c == '?' || c == '(' || c == ')' || c == '|' || c
        == '[' || c == ']' || c == '{' || c == '}' || c == '^' || c == '$' || c == '#' || c == '&' || c
        == '-' || c == '~'
}

/// `s` with a backslash before each meta character, so that it matches
/// itself literally.
pub open spec fn regex_escaped(s: Seq<char>) -> Seq<char>
    decreases s.len(),
{
    if s.len() == 0 {
        Seq::empty()
    } else {
        regex_escaped(s.drop_last()) + if is_meta_character(s.last()) {
            seq!['\\', s.last()]
        } else {
            seq![s.last()]
        }
    }
}

/// `regex::escape`: the contract states what its source does, a backslash
/// before each meta character.
#[verifier::external_body]
pub(crate) fn regex_escape(s: &str) -> (r: String)
    ensures
        r@ == regex_escaped(s@),
{
    regex::escape(s)
}

/// The escaped bases joined with `|`.
pub open spec fn alternation(bases: Seq<Seq<char>>) -> Seq<char>
    decreases bases.len(),
{
    if bases.len() == 0 {
        Seq::empty()
    } else if bases.len() == 1 {
        regex_escaped(bases[0])
    } else {
        alternation(bases.drop_last()) + seq!['|'] + regex_escaped(bases.last())
    }
}

/// The bases, each escaped, joined with `|`: an expression matching any
/// of them literally.
pub fn alternation_of(bases: &Vec<String>) -> (r: String)
    ensures
        r@ == alternation(views_of(bases@)),
{
    let ghost bv = views_of(bases@);
    let mut out: Vec<char> = Vec::new();
    let mut i: usize = 0;
    while i < bases.len()
        invariant
            bv == views_of(bases@),
            i <= bases@.len(),
            out@ == alternation(bv.take(i as int)),
        decreases bases@.len() - i,
    {
        assert(bv.take(i + 1).drop_last() =~= bv.take(i as int));
        assert(bv[i as int] == bases@[i as int]@);
        if i > 0 {
            out.push('|');
        } else {
            assert(bv.take(1)[0] == bv[0]);
        }
        let e = regex_escape(bases[i].as_str());
        let ec = chars_of(e.as_str());
        push_all(&mut out, &ec);
        i += 1;
    }
    assert(bv.take(i as int) =~= bv);
    string_of(&out)
}

/// The text of a group, empty when it took no part in the match.
pub open spec fn group_text(g: Option<Seq<char>>) -> Seq<char> {
    match g {
        Some(t) => t,
        None => Seq::empty(),
    }
}

/// The groups' texts, concatenated.
pub open spec fn joined_groups(gs: Seq<Option<Seq<char>>>) -> Seq<char>
    decreases gs.len(),
{
    if gs.len() == 0 {
        Seq::empty()
    } else {
        joined_groups(gs.drop_last()) + group_text(gs.last())
    }
}

/// The text with each match replaced by `reps[i]`.
pub open spec fn spliced(ps: Seq<PieceView>, tail: Seq<char>, reps: Seq<Seq<char>>) -> Seq<char>
    decreases ps.len(),
{
    if ps.len() == 0 {
        tail
    } else {
        let n = ps.len() - 1;
        spliced(ps.drop_last(), Seq::empty(), reps) + ps[n].0 + reps[n] + tail
    }
}

proof fn lemma_spliced_tail(ps: Seq<PieceView>, tail: Seq<char>, reps: Seq<Seq<char>>)
    ensures
        spliced(ps, tail, reps) == spliced(ps, Seq::empty(), reps) + tail,
    decreases ps.len(),
{
    if ps.len() == 0 {
        assert(Seq::<char>::empty() + tail =~= tail);
    } else {
        let n = ps.len() - 1;
        assert(spliced(ps.drop_last(), Seq::empty(), reps) + ps[n].0 + reps[n] + tail =~= (spliced(
            ps.drop_last(),
            Seq::empty(),
            reps,
        ) + ps[n].0 + reps[n] + Seq::empty()) + tail);
    }
}

/// The characters of a group, none when it took no part in the match.
pub fn group_chars(g: &Option<String>) -> (r: Vec<char>)
    ensures
        r@ == group_text(opt_view(*g)),
{
    match g {
        Some(t) => chars_of(t.as_str()),
        None => Vec::new(),
    }
}

/// The text the pieces and the tail cover, each match replaced by its
/// replacement.
pub fn splice(pieces: &Vec<RegexPiece>, tail: &String, reps: &Vec<Vec<char>>) -> (r: String)
    requires
        reps@.len() == pieces@.len(),
    ensures
        r@ == spliced(piece_views(pieces@), tail@, views_of_vecs(reps@)),
{
    let ghost pv = piece_views(pieces@);
    let ghost rv = views_of_vecs(reps@);
    let mut out: Vec<char> = Vec::new();
    let mut i: usize = 0;
    while i < pieces.len()
        invariant
            pv == piece_views(pieces@),
            rv == views_of_vecs(reps@),
            reps@.len() == pieces@.len(),
            i <= pieces@.len(),
            out@ == spliced(pv.take(i as int), Seq::empty(), rv),
        decreases pieces@.len() - i,
    {
        assert(pv.take(i + 1).drop_last() =~= pv.take(i as int));
        assert(pv[i as int].0 == pieces@[i as int].before@);
        assert(rv[i as int] == reps@[i as int]@);
        let b = chars_of(pieces[i].before.as_str());
        push_all(&mut out, &b);
        push_all(&mut out, &reps[i]);
        i += 1;
        assert(out@ =~= spliced(pv.take(i as int), Seq::empty(), rv));
    }
    let t = chars_of(tail.as_str());
    push_all(&mut out, &t);
    proof {
        assert(pv.take(i as int) =~= pv);
        lemma_spliced_tail(pv, tail@, rv);
    }
    string_of(&out)
}

/// `head`, `alt` and `tail` put together.
pub fn pattern_of(head: &str, alt: &str, tail: &str) -> (r: String)
    ensures
        r@ == head@ + alt@ + tail@,
{
    let mut v = chars_of(head);
    let a = chars_of(alt);
    let t = chars_of(tail);
    push_all(&mut v, &a);
    push_all(&mut v, &t);
    string_of(&v)
}

} // verus!
