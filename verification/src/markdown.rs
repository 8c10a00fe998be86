//! Text-level helpers of markdown rendering: byte-order marks, sentence
//! counting, task markers, heading anchors and the bounded list of URLs a
//! page fetches metadata for.

use vstd::prelude::*;
use pulldown_cmark::{Event, LinkType, MetadataBlockKind, Options, Parser, Tag, TagEnd, TextMergeStream};
use vstd::string::StrSliceExecFns;
use vstd::string::StringSliceAdditionalSpecFns;
use crate::text::{chars_of, has_prefix, push_all, starts_with, string_of, views_of, lowercase, to_lowercase};
use crate::link_index::opt_view;
use crate::link_grep::{contains_chars, string_views};
use crate::page_errors::dedup;
use crate::link_transform::is_unicode_whitespace;
use crate::regex_text::{alternation, alternation_of, compile_regex, pattern_of, regex_accepts, regex_is_match, regex_matches, CompiledRegex};
use crate::page_errors::trim_ws_start;
use crate::link_transform::is_unicode_whitespace_exec;
use crate::link_index::{chars_less, chars_lt, lemma_chars_lt_transitive, lemma_chars_lt_trichotomy};
use crate::frontmatter::{
    load_first_yaml_doc, title_key, yaml_first_document, yaml_frontmatter_simplified, yaml_metadata, MetaValue, MetaView,
    Metadata,
};

verus! {

/// A heading in the document, for the table of contents.
#[derive(Debug, Clone)]
pub struct HeadingInfo {
    pub level: u8,
    pub text: String,
    pub id: String,
}

// ---------------------------------------------------------------------------
// Byte-order mark
// ---------------------------------------------------------------------------

/// The UTF-8 byte-order mark some editors prepend to markdown files; the
/// parser would treat it as content and miss the frontmatter behind it.
pub const BOM: char = '\u{feff}';

/// `s` without a leading byte-order mark.
pub open spec fn without_bom(s: Seq<char>) -> Seq<char> {
    if s.len() > 0 && s[0] == BOM {
        s.drop_first()
    } else {
        s
    }
}

/// Returns `input` without a leading [`BOM`].
pub fn strip_bom(input: &str) -> (r: &str)
    ensures
        r@ == without_bom(input@),
{
    if !input.is_empty() && input.get_char(0) == BOM {
        let n = input.unicode_len();
        let r = input.substring_char(1, n);
        assert(r@ =~= input@.drop_first());
        r
    } else {
        input
    }
}

/// Removes a leading [`BOM`] in place.
pub fn strip_bom_in_place(input: &mut String)
    ensures
        final(input)@ == without_bom(old(input)@),
{
    let v = chars_of(input.as_str());
    if v.len() > 0 && v[0] == BOM {
        let rest = crate::text::copy_range(&v, 1, v.len());
        assert(rest@ =~= v@.drop_first());
        *input = string_of(&rest);
    }
}

// ---------------------------------------------------------------------------
// Sentences
// ---------------------------------------------------------------------------

/// A sentence terminator: `.`, `!` or `?`.
pub open spec fn is_terminator(c: char) -> bool {
    c == '.' || c == '!' || c == '?'
}

/// ASCII whitespace (space, tab, newline, form feed, carriage return).
pub open spec fn is_ascii_ws(c: char) -> bool {
    c == ' ' || c == '\t' || c == '\n' || c == '\u{c}' || c == '\r'
}

/// Index of the first non-terminator at or after `i`.
pub open spec fn next_non_terminator(s: Seq<char>, i: int) -> Option<int>
    decreases s.len() - i,
{
    if i < 0 || i >= s.len() {
        None
    } else if !is_terminator(s[i]) {
        Some(i)
    } else {
        next_non_terminator(s, i + 1)
    }
}

/// The terminator at `k` starts a run of terminators that ends the text or
/// is followed by whitespace: one sentence end.
pub open spec fn ends_sentence(s: Seq<char>, k: int) -> bool {
    &&& is_terminator(s[k])
    &&& (k == 0 || !is_terminator(s[k - 1]))
    &&& match next_non_terminator(s, k + 1) {
        None => true,
        Some(j) => is_ascii_ws(s[j]),
    }
}

/// The number of sentence ends among the first `n` characters.
pub open spec fn sentence_ends(s: Seq<char>, n: int) -> nat
    decreases n,
{
    if n <= 0 {
        0
    } else {
        sentence_ends(s, n - 1) + if ends_sentence(s, n - 1) {
            1nat
        } else {
            0nat
        }
    }
}

/// The last non-whitespace character is a terminator.
pub open spec fn ends_with_terminator(s: Seq<char>) -> bool {
    let t = crate::page_errors::trim_ws_end(s);
    t.len() > 0 && is_terminator(t.last())
}

fn trim_end_ws_len(v: &[char]) -> (n: usize)
    ensures
        n <= v@.len(),
        v@.take(n as int) == crate::page_errors::trim_ws_end(v@),
{
    let mut n: usize = v.len();
    assert(v@.take(n as int) =~= v@);
    while n > 0 && crate::link_transform::is_unicode_whitespace_exec(v[n - 1])
        invariant
            n <= v@.len(),
            crate::page_errors::trim_ws_end(v@) == crate::page_errors::trim_ws_end(v@.take(n as int)),
        decreases n,
    {
        assert(v@.take(n as int).drop_last() =~= v@.take(n - 1));
        n -= 1;
    }
    n
}

/// Counts sentence terminators in `text` for readability: a run of `.!?`
/// (so `...` and `?!` count once) counts when it ends the text or is
/// followed by whitespace, so the dots of `v1.2.3` do not. Also says whether
/// the last non-whitespace character is a terminator.
pub fn count_sentence_terminators(text: &str) -> (r: (usize, bool))
    ensures
        r.0 == sentence_ends(text@, text@.len() as int),
        r.1 == ends_with_terminator(text@),
{
    let v = chars_of(text);
    let n = v.len();
    let mut count: usize = 0;
    let mut i: usize = 0;
    while i < n
        invariant
            n == v@.len(),
            v@ == text@,
            i <= n,
            count == sentence_ends(v@, i as int),
            count <= i,
        decreases n - i,
    {
        let c = v[i];
        let is_t = c == '.' || c == '!' || c == '?';
        let prev_t = i > 0 && (v[i - 1] == '.' || v[i - 1] == '!' || v[i - 1] == '?');
        if is_t && !prev_t {
            let mut j: usize = i + 1;
            while j < n && (v[j] == '.' || v[j] == '!' || v[j] == '?')
                invariant
                    n == v@.len(),
                    i < j <= n,
                    next_non_terminator(v@, i + 1) == next_non_terminator(v@, j as int),
                decreases n - j,
            {
                j += 1;
            }
            let boundary = j == n || v[j] == ' ' || v[j] == '\t' || v[j] == '\n' || v[j] == '\u{c}' || v[j]
                == '\r';
            if boundary {
                count += 1;
            }
        }
        i += 1;
    }
    let t = trim_end_ws_len(&v);
    let ends = t > 0 && (v[t - 1] == '.' || v[t - 1] == '!' || v[t - 1] == '?');
    (count, ends)
}

// ---------------------------------------------------------------------------
// Task markers
// ---------------------------------------------------------------------------

/// The state of a task.
#[derive(Debug, Clone, Copy, PartialEq, Eq, Structural)]
pub enum TaskStatus {
    Open,
    Done,
    Canceled,
}

/// What [`split_extended_marker`] returns: after a leading `[-]` or `[>]`
/// that ends the text or is followed by a space or tab, the text after it
/// (and after that one blank).
pub open spec fn extended_marker(text: Seq<char>) -> Option<Seq<char>> {
    if text.len() >= 3 && text[0] == '[' && (text[1] == '-' || text[1] == '>') && text[2] == ']' {
        let rest = text.skip(3);
        if rest.len() == 0 {
            Some(rest)
        } else if rest[0] == ' ' || rest[0] == '\t' {
            Some(rest.drop_first())
        } else {
            None
        }
    } else {
        None
    }
}

/// Splits the `[-]` (canceled) or `[>]` (moved elsewhere) marker off the
/// front of a list item's first text run; both mark the task canceled. The
/// marker must be followed by whitespace or end the run, so `[-]x` is not a
/// checkbox.
pub fn split_extended_marker(text: &str) -> (r: Option<(TaskStatus, &str)>)
    ensures
        match r {
            Some((status, rest)) => status == TaskStatus::Canceled && extended_marker(text@) == Some(rest@),
            None => extended_marker(text@) is None,
        },
{
    let n = text.unicode_len();
    if n < 3 {
        return None;
    }
    let c0 = text.get_char(0);
    let c1 = text.get_char(1);
    let c2 = text.get_char(2);
    if !(c0 == '[' && (c1 == '-' || c1 == '>') && c2 == ']') {
        return None;
    }
    if n == 3 {
        let rest = text.substring_char(3, 3);
        assert(rest@ =~= text@.skip(3));
        return Some((TaskStatus::Canceled, rest));
    }
    let c3 = text.get_char(3);
    if c3 == ' ' || c3 == '\t' {
        let rest = text.substring_char(4, n);
        assert(rest@ =~= text@.skip(3).drop_first());
        Some((TaskStatus::Canceled, rest))
    } else {
        None
    }
}

// ---------------------------------------------------------------------------
// Line numbers of byte offsets
// ---------------------------------------------------------------------------

/// The byte offsets of the `\n` bytes among the first `n` bytes of `b`,
/// ascending.
pub open spec fn newline_offsets(b: Seq<u8>, n: int) -> Seq<int>
    decreases n,
{
    if n <= 0 {
        Seq::empty()
    } else if b[n - 1] == 10u8 {
        newline_offsets(b, n - 1).push(n - 1)
    } else {
        newline_offsets(b, n - 1)
    }
}

/// The 1-based line of a text with bytes `b` that holds byte `offset`: one
/// more than the newlines strictly before it; an offset past the end is on
/// the last line.
pub open spec fn line_number(b: Seq<u8>, offset: int) -> int {
    newline_offsets(b, if offset < b.len() { offset } else { b.len() as int }).len() as int + 1
}

/// The offsets up to `m` are a prefix of those up to `n`, every later one
/// is at least `m`, and all of them lie below `n` in ascending order.
pub proof fn lemma_newline_offsets_prefix(b: Seq<u8>, m: int, n: int)
    requires
        0 <= m <= n <= b.len(),
    ensures
        newline_offsets(b, m).len() <= newline_offsets(b, n).len(),
        newline_offsets(b, n).take(newline_offsets(b, m).len() as int) == newline_offsets(b, m),
        forall|j: int| newline_offsets(b, m).len() <= j < newline_offsets(b, n).len()
            ==> newline_offsets(b, n)[j] >= m,
        forall|j: int| 0 <= j < newline_offsets(b, n).len()
            ==> 0 <= #[trigger] newline_offsets(b, n)[j] < n,
        forall|i: int, j: int| 0 <= i < j < newline_offsets(b, n).len()
            ==> newline_offsets(b, n)[i] < newline_offsets(b, n)[j],
    decreases n,
{
    if n > 0 {
        lemma_newline_offsets_prefix(b, if m < n { m } else { n - 1 }, n - 1);
        if m == n {
            assert(newline_offsets(b, n).take(newline_offsets(b, n).len() as int) =~= newline_offsets(b, n));
        } else {
            assert(newline_offsets(b, n).take(newline_offsets(b, m).len() as int)
                =~= newline_offsets(b, n - 1).take(newline_offsets(b, m).len() as int));
        }
    }
}

/// Line numbers never go down as the offset grows.
pub proof fn law_line_numbers_ascend(b: Seq<u8>, x: int, y: int)
    requires
        0 <= x <= y,
    ensures
        line_number(b, x) <= line_number(b, y),
{
    let mx = if x < b.len() { x } else { b.len() as int };
    let my = if y < b.len() { y } else { b.len() as int };
    lemma_newline_offsets_prefix(b, mx, my);
}

/// Byte offset to 1-based line lookups over one source text.
pub struct LineIndex {
    /// Byte offset of every `\n`, ascending.
    newlines: Vec<usize>,
    /// The bytes of the text the index was built from.
    source: Ghost<Seq<u8>>,
}

impl LineIndex {
    /// The bytes of the text this index was built from.
    pub closed spec fn source(&self) -> Seq<u8> {
        self.source@
    }

    #[verifier::type_invariant]
    spec fn offsets_match(&self) -> bool {
        &&& self.newlines@.len() == newline_offsets(self.source@, self.source@.len() as int).len()
        &&& forall|j: int| 0 <= j < self.newlines@.len()
            ==> self.newlines@[j] as int == #[trigger] newline_offsets(self.source@, self.source@.len() as int)[j]
    }

    /// Records the offset of every newline in `source`.
    pub fn build(source: &str) -> (r: LineIndex)
        ensures
            r.source() == source.spec_bytes(),
    {
        let bytes = source.as_bytes();
        let ghost b = bytes@;
        let mut newlines: Vec<usize> = Vec::new();
        let mut i: usize = 0;
        while i < bytes.len()
            invariant
                b == bytes@,
                i <= bytes@.len(),
                newlines@.len() == newline_offsets(b, i as int).len(),
                forall|j: int| 0 <= j < newlines@.len()
                    ==> newlines@[j] as int == #[trigger] newline_offsets(b, i as int)[j],
            decreases bytes@.len() - i,
        {
            if bytes[i] == 10u8 {
                newlines.push(i);
            }
            i = i + 1;
        }
        LineIndex { newlines, source: Ghost(b) }
    }

    /// The 1-based line containing byte `offset`, saturating at `u32::MAX`.
    pub fn line_of(&self, offset: usize) -> (r: u32)
        ensures
            r as int == if line_number(self.source(), offset as int) < u32::MAX {
                line_number(self.source(), offset as int)
            } else {
                u32::MAX as int
            },
    {
        proof {
            use_type_invariant(self);
        }
        let ghost b = self.source@;
        let ghost n = b.len() as int;
        let ghost m = if (offset as int) < n { offset as int } else { n };
        proof {
            lemma_newline_offsets_prefix(b, m, n);
        }
        let v = &self.newlines;
        assert forall|i: int, j: int| 0 <= i < j < v@.len() implies v@[i] < v@[j] by {
            assert(v@[i] as int == newline_offsets(b, n)[i]);
            assert(v@[j] as int == newline_offsets(b, n)[j]);
        }
        let mut lo: usize = 0;
        let mut hi: usize = v.len();
        while lo < hi
            invariant
                lo <= hi <= v@.len(),
                v@.len() == newline_offsets(b, n).len(),
                forall|j: int| 0 <= j < v@.len() ==> v@[j] as int == #[trigger] newline_offsets(b, n)[j],
                forall|i: int, j: int| 0 <= i < j < newline_offsets(b, n).len()
                    ==> newline_offsets(b, n)[i] < newline_offsets(b, n)[j],
                forall|i: int, j: int| 0 <= i < j < v@.len() ==> v@[i] < v@[j],
                forall|j: int| 0 <= j < lo ==> (v@[j] as int) < offset,
                forall|j: int| hi <= j < v@.len() ==> (v@[j] as int) >= offset,
            decreases hi - lo,
        {
            let mid = lo + (hi - lo) / 2;
            if v[mid] < offset {
                lo = mid + 1;
            } else {
                hi = mid;
            }
        }
        let ghost k = newline_offsets(b, m).len() as int;
        proof {
            if (lo as int) < k {
                assert(newline_offsets(b, n)[lo as int] == newline_offsets(b, m)[lo as int]);
                assert(newline_offsets(b, m)[lo as int] < m) by {
                    lemma_newline_offsets_prefix(b, m, m);
                }
            }
            if (lo as int) > k {
                assert(newline_offsets(b, n)[k] >= m);
            }
            assert(lo as int == k);
        }
        if lo >= 4294967295usize {
            u32::MAX
        } else {
            (lo + 1) as u32
        }
    }
}

// ---------------------------------------------------------------------------
// Incomplete-block markers
// ---------------------------------------------------------------------------

/// The markers that are not empty, in their order.
pub open spec fn nonempty_markers(m: Seq<Seq<char>>) -> Seq<Seq<char>>
    decreases m.len(),
{
    if m.len() == 0 {
        Seq::empty()
    } else if m.last().len() > 0 {
        nonempty_markers(m.drop_last()).push(m.last())
    } else {
        nonempty_markers(m.drop_last())
    }
}

/// The expression that finds an incomplete block: one of the non-empty
/// markers, taken literally, at the start of the text and followed by a
/// word boundary (`^(?:M1|M2|...)\b`).
pub open spec fn incomplete_marker_pattern(markers: Seq<Seq<char>>) -> Seq<char> {
    seq!['^', '(', '?', ':'] + alternation(nonempty_markers(markers)) + seq![')', '\\', 'b']
}

/// Compiles [`incomplete_marker_pattern`] for `markers`. `None` when no
/// marker is non-empty (the caller then skips the pass) or when the
/// expression does not compile; markers are escaped, so their meta
/// characters cannot break it.
pub fn build_incomplete_marker_regex(markers: &[String]) -> (r: Option<CompiledRegex>)
    ensures
        r is Some == (nonempty_markers(views_of(markers@)).len() > 0
            && regex_accepts(incomplete_marker_pattern(views_of(markers@)))),
        r matches Some(c) ==> c.pattern() == incomplete_marker_pattern(views_of(markers@)),
{
    let ghost mv = views_of(markers@);
    let mut parts: Vec<String> = Vec::new();
    let mut i: usize = 0;
    while i < markers.len()
        invariant
            mv == views_of(markers@),
            i <= markers@.len(),
            views_of(parts@) == nonempty_markers(mv.take(i as int)),
        decreases markers@.len() - i,
    {
        assert(mv.take(i + 1).drop_last() =~= mv.take(i as int));
        assert(mv[i as int] == markers@[i as int]@);
        if !markers[i].as_str().is_empty() {
            let ghost before = parts@;
            parts.push(markers[i].clone());
            assert(views_of(parts@) =~= views_of(before).push(markers@[i as int]@));
        }
        i += 1;
    }
    assert(mv.take(i as int) =~= mv);
    if parts.len() == 0 {
        return None;
    }
    let alt = alternation_of(&parts);
    let pattern = pattern_of("^(?:", alt.as_str(), ")\\b");
    proof {
        reveal_strlit("^(?:");
        reveal_strlit(")\\b");
        assert(pattern@ =~= incomplete_marker_pattern(mv));
    }
    compile_regex(pattern.as_str())
}

// ---------------------------------------------------------------------------
// Parsed markdown events
// ---------------------------------------------------------------------------

/// One event of a parsed markdown document, as far as the readers below
/// look at it; every other event is [`MdEvent::Other`].
#[derive(Debug, Clone, PartialEq, Eq)]
pub enum MdEvent {
    /// Start of a heading of the given level (1 to 6).
    StartHeading(u8),
    /// End of a heading of the given level.
    EndHeading(u8),
    StartParagraph,
    EndParagraph,
    /// Start of a list item.
    StartItem,
    EndItem,
    StartTableCell,
    EndTableCell,
    /// Start of a link to `dest`; `wiki` for a `[[…]]` link.
    StartLink { dest: String, wiki: bool },
    EndLink,
    /// Start of an image of `dest` with title `title`.
    StartImage { dest: String, title: String },
    EndImage,
    /// Start of emphasis, strong emphasis, strikethrough, superscript or
    /// subscript.
    StartInlineStyle,
    EndInlineStyle,
    /// Start of a frontmatter block: YAML style (`---`) when true, else
    /// `+++`.
    StartMetadata(bool),
    EndMetadata(bool),
    StartCodeBlock,
    EndCodeBlock,
    /// A thematic break.
    Rule,
    /// Start of an alert block of the given kind.
    StartAlert(HintKind),
    EndAlert,
    Text(String),
    /// An inline code span.
    Code(String),
    InlineMath(String),
    DisplayMath(String),
    /// A block of raw HTML.
    Html(String),
    /// Raw HTML inside a paragraph.
    InlineHtml(String),
    FootnoteReference(String),
    SoftBreak,
    HardBreak,
    /// A `[ ]` (false) or `[x]` (true) checkbox at the start of a list item.
    TaskListMarker(bool),
    Other,
}

/// The value of an [`MdEvent`].
pub enum MdEventView {
    StartHeading(u8),
    EndHeading(u8),
    StartParagraph,
    EndParagraph,
    StartItem,
    EndItem,
    StartTableCell,
    EndTableCell,
    StartLink { dest: Seq<char>, wiki: bool },
    EndLink,
    StartImage { dest: Seq<char>, title: Seq<char> },
    EndImage,
    StartInlineStyle,
    EndInlineStyle,
    StartMetadata(bool),
    EndMetadata(bool),
    StartCodeBlock,
    EndCodeBlock,
    Rule,
    StartAlert(HintKind),
    EndAlert,
    Text(Seq<char>),
    Code(Seq<char>),
    InlineMath(Seq<char>),
    DisplayMath(Seq<char>),
    Html(Seq<char>),
    InlineHtml(Seq<char>),
    FootnoteReference(Seq<char>),
    SoftBreak,
    HardBreak,
    TaskListMarker(bool),
    Other,
}

impl View for MdEvent {
    type V = MdEventView;

    open spec fn view(&self) -> MdEventView {
        match self {
            MdEvent::StartHeading(l) => MdEventView::StartHeading(*l),
            MdEvent::EndHeading(l) => MdEventView::EndHeading(*l),
            MdEvent::StartParagraph => MdEventView::StartParagraph,
            MdEvent::EndParagraph => MdEventView::EndParagraph,
            MdEvent::StartItem => MdEventView::StartItem,
            MdEvent::EndItem => MdEventView::EndItem,
            MdEvent::StartTableCell => MdEventView::StartTableCell,
            MdEvent::EndTableCell => MdEventView::EndTableCell,
            MdEvent::StartLink { dest, wiki } => MdEventView::StartLink { dest: dest@, wiki: *wiki },
            MdEvent::EndLink => MdEventView::EndLink,
            MdEvent::StartImage { dest, title } => MdEventView::StartImage { dest: dest@, title: title@ },
            MdEvent::EndImage => MdEventView::EndImage,
            MdEvent::StartInlineStyle => MdEventView::StartInlineStyle,
            MdEvent::EndInlineStyle => MdEventView::EndInlineStyle,
            MdEvent::StartMetadata(y) => MdEventView::StartMetadata(*y),
            MdEvent::EndMetadata(y) => MdEventView::EndMetadata(*y),
            MdEvent::StartCodeBlock => MdEventView::StartCodeBlock,
            MdEvent::EndCodeBlock => MdEventView::EndCodeBlock,
            MdEvent::Rule => MdEventView::Rule,
            MdEvent::StartAlert(k) => MdEventView::StartAlert(*k),
            MdEvent::EndAlert => MdEventView::EndAlert,
            MdEvent::Text(t) => MdEventView::Text(t@),
            MdEvent::Code(t) => MdEventView::Code(t@),
            MdEvent::InlineMath(t) => MdEventView::InlineMath(t@),
            MdEvent::DisplayMath(t) => MdEventView::DisplayMath(t@),
            MdEvent::Html(t) => MdEventView::Html(t@),
            MdEvent::InlineHtml(t) => MdEventView::InlineHtml(t@),
            MdEvent::FootnoteReference(t) => MdEventView::FootnoteReference(t@),
            MdEvent::SoftBreak => MdEventView::SoftBreak,
            MdEvent::HardBreak => MdEventView::HardBreak,
            MdEvent::TaskListMarker(b) => MdEventView::TaskListMarker(*b),
            MdEvent::Other => MdEventView::Other,
        }
    }
}

/// The values of a list of events.
pub open spec fn event_views(v: Seq<MdEvent>) -> Seq<MdEventView> {
    v.map_values(|e: MdEvent| e@)
}

/// Every heading event has a level from 1 to 6 (pulldown-cmark's
/// `HeadingLevel` runs from `H1 = 1` to `H6`).
pub open spec fn heading_levels_valid(ev: Seq<MdEventView>) -> bool {
    forall|i: int| 0 <= i < ev.len() ==> match #[trigger] ev[i] {
        MdEventView::StartHeading(l) => 1 <= l <= 6,
        MdEventView::EndHeading(l) => 1 <= l <= 6,
        _ => true,
    }
}

/// The events pulldown-cmark parses `text` into, adjacent text runs merged;
/// with every extension enabled when `all_extensions` holds, else only
/// YAML-style frontmatter blocks.
pub uninterp spec fn parsed_events(text: Seq<char>, all_extensions: bool) -> Seq<MdEventView>;

#[verifier::external_type_specification]
#[verifier::external_body]
pub struct ExMarkdownEvent<'a>(pulldown_cmark::Event<'a>);

#[verifier::external_type_specification]
#[verifier::external_body]
pub struct ExMarkdownTag<'a>(pulldown_cmark::Tag<'a>);

#[verifier::external_type_specification]
#[verifier::external_body]
pub struct ExMarkdownTagEnd(pulldown_cmark::TagEnd);

/// Converts the tag of a pulldown-cmark start event, variant by variant.
#[verifier::external_body]
fn md_start_of(t: pulldown_cmark::Tag<'_>) -> MdEvent {
    match t {
        Tag::Link { link_type: LinkType::WikiLink { .. }, dest_url, .. } => MdEvent::StartLink { dest: dest_url.into_string(), wiki: true },
        Tag::Link { dest_url, .. } => MdEvent::StartLink { dest: dest_url.into_string(), wiki: false },
        Tag::Image { dest_url, title, .. } => MdEvent::StartImage { dest: dest_url.into_string(), title: title.into_string() },
        Tag::Emphasis | Tag::Strong | Tag::Strikethrough | Tag::Superscript | Tag::Subscript => MdEvent::StartInlineStyle,
        other => md_block_start_of(other),
    }
}

/// Converts the tag of a pulldown-cmark block start event, variant by
/// variant.
#[verifier::external_body]
fn md_block_start_of(t: pulldown_cmark::Tag<'_>) -> MdEvent {
    match t {
        Tag::Heading { level, .. } => MdEvent::StartHeading(level as u8),
        Tag::Paragraph => MdEvent::StartParagraph,
        Tag::Item => MdEvent::StartItem,
        Tag::TableCell => MdEvent::StartTableCell,
        Tag::MetadataBlock(MetadataBlockKind::YamlStyle) => MdEvent::StartMetadata(true),
        Tag::MetadataBlock(_) => MdEvent::StartMetadata(false),
        Tag::CodeBlock(_) => MdEvent::StartCodeBlock,
        _ => MdEvent::Other,
    }
}

/// Converts the tag of a pulldown-cmark end event, variant by variant.
#[verifier::external_body]
fn md_end_of(t: pulldown_cmark::TagEnd) -> MdEvent {
    match t {
        TagEnd::Heading(level) => MdEvent::EndHeading(level as u8),
        TagEnd::Paragraph => MdEvent::EndParagraph,
        TagEnd::Item => MdEvent::EndItem,
        TagEnd::TableCell => MdEvent::EndTableCell,
        TagEnd::Link => MdEvent::EndLink,
        TagEnd::Image => MdEvent::EndImage,
        TagEnd::Emphasis | TagEnd::Strong | TagEnd::Strikethrough | TagEnd::Superscript | TagEnd::Subscript => MdEvent::EndInlineStyle,
        TagEnd::MetadataBlock(MetadataBlockKind::YamlStyle) => MdEvent::EndMetadata(true),
        TagEnd::MetadataBlock(_) => MdEvent::EndMetadata(false),
        TagEnd::CodeBlock => MdEvent::EndCodeBlock,
        _ => MdEvent::Other,
    }
}

/// Converts one pulldown-cmark event to an [`MdEvent`], variant by variant.
#[verifier::external_body]
fn md_event_of(e: pulldown_cmark::Event<'_>) -> MdEvent {
    match e {
        Event::Start(t) => md_start_of(t),
        Event::End(t) => md_end_of(t),
        Event::Text(t) => MdEvent::Text(t.into_string()),
        Event::Code(t) => MdEvent::Code(t.into_string()),
        Event::InlineMath(t) => MdEvent::InlineMath(t.into_string()),
        Event::DisplayMath(t) => MdEvent::DisplayMath(t.into_string()),
        Event::Html(t) => MdEvent::Html(t.into_string()),
        Event::InlineHtml(t) => MdEvent::InlineHtml(t.into_string()),
        Event::FootnoteReference(t) => MdEvent::FootnoteReference(t.into_string()),
        other => md_mark_of(other),
    }
}

/// Converts a pulldown-cmark event without text, variant by variant.
#[verifier::external_body]
fn md_mark_of(e: pulldown_cmark::Event<'_>) -> MdEvent {
    match e {
        Event::SoftBreak => MdEvent::SoftBreak,
        Event::HardBreak => MdEvent::HardBreak,
        Event::TaskListMarker(b) => MdEvent::TaskListMarker(b),
        Event::Rule => MdEvent::Rule,
        _ => MdEvent::Other,
    }
}

/// `pulldown_cmark::Parser::new_ext` over `text`, its events merged by
/// `TextMergeStream`: the contract names the result as a function of the
/// text and the option set.
#[verifier::external_body]
pub(crate) fn parse_markdown(text: &str, all_extensions: bool) -> (r: Vec<MdEvent>)
    ensures
        event_views(r@) == parsed_events(text@, all_extensions),
        heading_levels_valid(event_views(r@)),
{
    let options = if all_extensions { Options::all() } else { Options::ENABLE_YAML_STYLE_METADATA_BLOCKS };
    TextMergeStream::new(Parser::new_ext(text, options)).map(md_event_of).collect()
}

/// The events of `text` parsed with every extension enabled, as the
/// renderer parses a page.
pub fn markdown_events(text: &str) -> (r: Vec<MdEvent>)
    ensures
        event_views(r@) == parsed_events(text@, true),
        heading_levels_valid(event_views(r@)),
{
    parse_markdown(text, true)
}

/// Whether an event belongs to a block's inline content: text, code, math,
/// inline HTML, footnote references, breaks and checkboxes, and the start
/// or end of emphasis-like styles, links and images. A raw HTML block is
/// not inline.
pub open spec fn is_inline(e: MdEventView) -> bool {
    match e {
        MdEventView::Text(_) | MdEventView::Code(_) | MdEventView::InlineMath(_) | MdEventView::DisplayMath(_)
        | MdEventView::InlineHtml(_) | MdEventView::FootnoteReference(_) | MdEventView::SoftBreak
        | MdEventView::HardBreak | MdEventView::TaskListMarker(_) => true,
        MdEventView::StartInlineStyle | MdEventView::EndInlineStyle | MdEventView::StartLink { .. }
        | MdEventView::EndLink | MdEventView::StartImage { .. } | MdEventView::EndImage => true,
        _ => false,
    }
}

/// True for events that belong to a block's inline content; a task's text
/// closes at the first event that is not one of these.
pub fn is_inline_event(event: &MdEvent) -> (r: bool)
    ensures
        r == is_inline(event@),
{
    match event {
        MdEvent::Text(_) | MdEvent::Code(_) | MdEvent::InlineMath(_) | MdEvent::DisplayMath(_)
        | MdEvent::InlineHtml(_) | MdEvent::FootnoteReference(_) | MdEvent::SoftBreak | MdEvent::HardBreak
        | MdEvent::TaskListMarker(_) => true,
        MdEvent::StartInlineStyle | MdEvent::EndInlineStyle | MdEvent::StartLink { .. } | MdEvent::EndLink
        | MdEvent::StartImage { .. } | MdEvent::EndImage => true,
        _ => false,
    }
}

/// The checkbox an event stands for: `[x]` is done and `[ ]` open, as the
/// parser recognises them; a `[-]` or `[>]` marker, canceled, only in the
/// first text of a list item.
pub open spec fn task_marker(e: MdEventView, at_item_start: bool) -> Option<TaskStatus> {
    match e {
        MdEventView::TaskListMarker(done) => if done {
            Some(TaskStatus::Done)
        } else {
            Some(TaskStatus::Open)
        },
        MdEventView::Text(t) => if at_item_start && extended_marker(t) is Some {
            Some(TaskStatus::Canceled)
        } else {
            None
        },
        _ => None,
    }
}

/// Decodes a task checkbox from `event`, or `None` if it is not one.
/// `at_item_start` tells whether the event is the first inline event of a
/// list item, the only place a `[-]` or `[>]` marker counts.
pub fn task_marker_status(event: &MdEvent, at_item_start: bool) -> (r: Option<TaskStatus>)
    ensures
        r == task_marker(event@, at_item_start),
{
    match event {
        MdEvent::TaskListMarker(done) => if *done {
            Some(TaskStatus::Done)
        } else {
            Some(TaskStatus::Open)
        },
        MdEvent::Text(text) => {
            if at_item_start {
                match split_extended_marker(text.as_str()) {
                    Some((status, _)) => Some(status),
                    None => None,
                }
            } else {
                None
            }
        },
        _ => None,
    }
}

/// The alert a remark-hint paragraph prefix stands for.
#[derive(Debug, Clone, Copy, PartialEq, Eq, Structural)]
pub enum HintKind {
    /// `!> `
    Tip,
    /// `?> `
    Warning,
    /// `x> `
    Caution,
}

/// The alert and the rest of the text when `text` starts with `!> `, `?> `
/// or `x> `.
pub open spec fn hint_prefix(text: Seq<char>) -> Option<(HintKind, Seq<char>)> {
    if text.len() >= 3 && text[1] == '>' && text[2] == ' ' {
        if text[0] == '!' {
            Some((HintKind::Tip, text.skip(3)))
        } else if text[0] == '?' {
            Some((HintKind::Warning, text.skip(3)))
        } else if text[0] == 'x' {
            Some((HintKind::Caution, text.skip(3)))
        } else {
            None
        }
    } else {
        None
    }
}

/// Maps a remark-hint paragraph prefix (`!> `, `?> `, `x> `) to the
/// GitHub-style alert it stands for, with the text after the marker.
pub fn detect_hint_prefix(text: &str) -> (r: Option<(HintKind, &str)>)
    ensures
        match r {
            Some((kind, rest)) => hint_prefix(text@) == Some((kind, rest@)),
            None => hint_prefix(text@) is None,
        },
{
    let n = text.unicode_len();
    if n < 3 {
        return None;
    }
    let c0 = text.get_char(0);
    let kind = if c0 == '!' {
        HintKind::Tip
    } else if c0 == '?' {
        HintKind::Warning
    } else if c0 == 'x' {
        HintKind::Caution
    } else {
        return None;
    };
    if text.get_char(1) != '>' || text.get_char(2) != ' ' {
        return None;
    }
    let rest = text.substring_char(3, n);
    assert(rest@ =~= text@.skip(3));
    Some((kind, rest))
}

// ---------------------------------------------------------------------------
// Incomplete blocks
// ---------------------------------------------------------------------------

/// Opens the highlight of a block marked incomplete.
pub const INCOMPLETE_SPAN_OPEN: &'static str = "<span class=\"mbr-incomplete\">";
/// Closes it.
pub const INCOMPLETE_SPAN_CLOSE: &'static str = "</span>";

/// The event that opens the highlight.
pub open spec fn span_open_event() -> MdEventView {
    MdEventView::Html(INCOMPLETE_SPAN_OPEN@)
}

/// The event that closes the highlight.
pub open spec fn span_close_event() -> MdEventView {
    MdEventView::Html(INCOMPLETE_SPAN_CLOSE@)
}

/// The start of a block that its first text can mark incomplete: a
/// paragraph, a heading, a list item or a table cell.
pub open spec fn opens_markable(e: MdEventView) -> bool {
    match e {
        MdEventView::StartParagraph | MdEventView::StartHeading(_) | MdEventView::StartItem
        | MdEventView::StartTableCell => true,
        _ => false,
    }
}

/// The end of such a block.
pub open spec fn closes_markable(e: MdEventView) -> bool {
    match e {
        MdEventView::EndParagraph | MdEventView::EndHeading(_) | MdEventView::EndItem | MdEventView::EndTableCell => true,
        _ => false,
    }
}

/// An open block: where its start event stands in the output, whether its
/// first text has been seen, and whether that text marked it.
pub type MarkFrame = (int, bool, bool);

/// One event of the marking pass over the output so far and the blocks
/// open. A block's start opens a frame and its end closes the innermost
/// one, after the highlight's end when that block was marked. The first
/// text of the innermost open block marks it when the marker expression
/// matches the text without its leading white space: the highlight then
/// opens right after the block's start.
pub open spec fn mark_step(st: (Seq<MdEventView>, Seq<MarkFrame>), e: MdEventView, pattern: Seq<char>) -> (
    Seq<MdEventView>,
    Seq<MarkFrame>,
) {
    let out = st.0;
    let stack = st.1;
    if opens_markable(e) {
        (out.push(e), stack.push((out.len() as int, false, false)))
    } else if closes_markable(e) {
        if stack.len() > 0 && stack.last().2 {
            (out.push(span_close_event()).push(e), stack.drop_last())
        } else if stack.len() > 0 {
            (out.push(e), stack.drop_last())
        } else {
            (out.push(e), stack)
        }
    } else {
        match e {
            MdEventView::Text(t) => if stack.len() > 0 && !stack.last().1 {
                let f = stack.last();
                if regex_is_match(pattern, trim_ws_start(t)) {
                    (out.insert(f.0 + 1, span_open_event()).push(e), stack.update(stack.len() - 1, (f.0, true, true)))
                } else {
                    (out.push(e), stack.update(stack.len() - 1, (f.0, true, f.2)))
                }
            } else {
                (out.push(e), stack)
            },
            _ => (out.push(e), stack),
        }
    }
}

/// The marking pass over `ev`: the output and the blocks left open.
pub open spec fn mark_run(ev: Seq<MdEventView>, pattern: Seq<char>) -> (Seq<MdEventView>, Seq<MarkFrame>)
    decreases ev.len(),
{
    if ev.len() == 0 {
        (Seq::empty(), Seq::empty())
    } else {
        mark_step(mark_run(ev.drop_last(), pattern), ev.last(), pattern)
    }
}

/// `ev` with the blocks whose first text matches `pattern` highlighted.
pub open spec fn marked_events(ev: Seq<MdEventView>, pattern: Seq<char>) -> Seq<MdEventView> {
    mark_run(ev, pattern).0
}

/// The open frames stand at increasing places inside the output.
pub open spec fn frames_ok(st: (Seq<MdEventView>, Seq<MarkFrame>)) -> bool {
    &&& forall|i: int| 0 <= i < st.1.len() ==> 0 <= #[trigger] st.1[i].0 < st.0.len()
    &&& forall|i: int, j: int| 0 <= i < j < st.1.len() ==> #[trigger] st.1[i].0 < #[trigger] st.1[j].0
}

proof fn lemma_mark_run_frames(ev: Seq<MdEventView>, pattern: Seq<char>)
    ensures
        frames_ok(mark_run(ev, pattern)),
    decreases ev.len(),
{
    if ev.len() > 0 {
        lemma_mark_run_frames(ev.drop_last(), pattern);
        let st = mark_run(ev.drop_last(), pattern);
        let e = ev.last();
        let r = mark_step(st, e, pattern);
        assert(r == mark_run(ev, pattern));
        if opens_markable(e) {
            assert(frames_ok(r)) by {
                assert forall|i: int, j: int| 0 <= i < j < r.1.len() implies #[trigger] r.1[i].0 < #[trigger] r.1[j].0 by {
                    if j == r.1.len() - 1 {
                        assert(r.1[j].0 == st.0.len());
                        assert(r.1[i] == st.1[i]);
                    } else {
                        assert(r.1[i] == st.1[i]);
                        assert(r.1[j] == st.1[j]);
                    }
                }
                assert forall|i: int| 0 <= i < r.1.len() implies 0 <= #[trigger] r.1[i].0 < r.0.len() by {
                    if i < st.1.len() {
                        assert(r.1[i] == st.1[i]);
                    }
                }
            }
        } else if closes_markable(e) {
            assert(frames_ok(r)) by {
                assert forall|i: int| 0 <= i < r.1.len() implies 0 <= #[trigger] r.1[i].0 < r.0.len() by {
                    assert(r.1[i] == st.1[i]);
                }
                assert forall|i: int, j: int| 0 <= i < j < r.1.len() implies #[trigger] r.1[i].0 < #[trigger] r.1[j].0 by {
                    assert(r.1[i] == st.1[i]);
                    assert(r.1[j] == st.1[j]);
                }
            }
        } else {
            assert(frames_ok(r)) by {
                assert forall|i: int| 0 <= i < r.1.len() implies 0 <= #[trigger] r.1[i].0 < r.0.len() by {
                    assert(r.1[i].0 == st.1[i].0);
                }
                assert forall|i: int, j: int| 0 <= i < j < r.1.len() implies #[trigger] r.1[i].0 < #[trigger] r.1[j].0 by {
                    assert(r.1[i].0 == st.1[i].0);
                    assert(r.1[j].0 == st.1[j].0);
                }
            }
        }
    }
}

/// The frames as values.
pub open spec fn frame_views(v: Seq<(usize, bool, bool)>) -> Seq<MarkFrame> {
    v.map_values(|f: (usize, bool, bool)| (f.0 as int, f.1, f.2))
}

/// An event equal to `e`.
fn copy_event(e: &MdEvent) -> (r: MdEvent)
    ensures
        r@ == e@,
{
    match e {
        MdEvent::StartHeading(l) => MdEvent::StartHeading(*l),
        MdEvent::EndHeading(l) => MdEvent::EndHeading(*l),
        MdEvent::StartParagraph => MdEvent::StartParagraph,
        MdEvent::EndParagraph => MdEvent::EndParagraph,
        MdEvent::StartItem => MdEvent::StartItem,
        MdEvent::EndItem => MdEvent::EndItem,
        MdEvent::StartTableCell => MdEvent::StartTableCell,
        MdEvent::EndTableCell => MdEvent::EndTableCell,
        MdEvent::StartLink { dest, wiki } => MdEvent::StartLink { dest: dest.clone(), wiki: *wiki },
        MdEvent::EndLink => MdEvent::EndLink,
        MdEvent::StartImage { dest, title } => MdEvent::StartImage { dest: dest.clone(), title: title.clone() },
        MdEvent::EndImage => MdEvent::EndImage,
        MdEvent::StartInlineStyle => MdEvent::StartInlineStyle,
        MdEvent::EndInlineStyle => MdEvent::EndInlineStyle,
        MdEvent::StartMetadata(y) => MdEvent::StartMetadata(*y),
        MdEvent::EndMetadata(y) => MdEvent::EndMetadata(*y),
        MdEvent::Rule => MdEvent::Rule,
        MdEvent::StartAlert(k) => MdEvent::StartAlert(*k),
        MdEvent::EndAlert => MdEvent::EndAlert,
        MdEvent::StartCodeBlock => MdEvent::StartCodeBlock,
        MdEvent::EndCodeBlock => MdEvent::EndCodeBlock,
        MdEvent::Text(t) => MdEvent::Text(t.clone()),
        MdEvent::Code(t) => MdEvent::Code(t.clone()),
        MdEvent::InlineMath(t) => MdEvent::InlineMath(t.clone()),
        MdEvent::DisplayMath(t) => MdEvent::DisplayMath(t.clone()),
        MdEvent::Html(t) => MdEvent::Html(t.clone()),
        MdEvent::InlineHtml(t) => MdEvent::InlineHtml(t.clone()),
        MdEvent::FootnoteReference(t) => MdEvent::FootnoteReference(t.clone()),
        MdEvent::SoftBreak => MdEvent::SoftBreak,
        MdEvent::HardBreak => MdEvent::HardBreak,
        MdEvent::TaskListMarker(b) => MdEvent::TaskListMarker(*b),
        MdEvent::Other => MdEvent::Other,
    }
}

fn is_markable_start(e: &MdEvent) -> (r: bool)
    ensures
        r == opens_markable(e@),
{
    match e {
        MdEvent::StartParagraph | MdEvent::StartHeading(_) | MdEvent::StartItem | MdEvent::StartTableCell => true,
        _ => false,
    }
}

fn is_markable_end(e: &MdEvent) -> (r: bool)
    ensures
        r == closes_markable(e@),
{
    match e {
        MdEvent::EndParagraph | MdEvent::EndHeading(_) | MdEvent::EndItem | MdEvent::EndTableCell => true,
        _ => false,
    }
}

/// `s` without its leading white space.
fn trim_start_ws(s: &str) -> (r: String)
    ensures
        r@ == trim_ws_start(s@),
{
    let v = chars_of(s);
    let mut a: usize = 0;
    assert(v@.skip(0) =~= v@);
    while a < v.len() && is_unicode_whitespace_exec(v[a])
        invariant
            a <= v@.len(),
            v@ == s@,
            trim_ws_start(s@) == trim_ws_start(v@.skip(a as int)),
        decreases v@.len() - a,
    {
        assert(v@.skip(a as int).drop_first() =~= v@.skip(a + 1));
        a += 1;
    }
    let w = crate::text::copy_range(&v, a, v.len());
    assert(w@ =~= v@.skip(a as int));
    string_of(&w)
}

/// Wraps the inline content of every paragraph, heading, list item and
/// table cell whose first text matches `marker_re` (after leading white
/// space) in the highlight: its opening right after the block's start, its
/// closing right before the block's end. Only the innermost open block is
/// looked at, so a list item whose text sits in a paragraph is marked
/// through that paragraph.
pub fn mark_incomplete_blocks(events: Vec<MdEvent>, marker_re: &CompiledRegex) -> (r: Vec<MdEvent>)
    ensures
        event_views(r@) == marked_events(event_views(events@), marker_re.pattern()),
{
    let ghost ev = event_views(events@);
    let ghost p = marker_re.pattern();
    let mut output: Vec<MdEvent> = Vec::new();
    let mut stack: Vec<(usize, bool, bool)> = Vec::new();
    let mut i: usize = 0;
    assert(ev.take(0) =~= Seq::<MdEventView>::empty());
    assert(event_views(output@) =~= Seq::<MdEventView>::empty());
    assert(frame_views(stack@) =~= Seq::<MarkFrame>::empty());
    while i < events.len()
        invariant
            ev == event_views(events@),
            p == marker_re.pattern(),
            i <= events@.len(),
            event_views(output@) == mark_run(ev.take(i as int), p).0,
            frame_views(stack@) == mark_run(ev.take(i as int), p).1,
        decreases events@.len() - i,
    {
        let ghost st = mark_run(ev.take(i as int), p);
        proof {
            lemma_mark_run_frames(ev.take(i as int), p);
            assert(ev.take(i + 1).drop_last() =~= ev.take(i as int));
            assert(ev.take(i + 1).last() == events@[i as int]@);
        }
        let event = copy_event(&events[i]);
        let ghost e = event@;
        let ghost r = mark_step(st, e, p);
        assert(r == mark_run(ev.take(i + 1), p));
        if is_markable_start(&event) {
            let start = output.len();
            output.push(event);
            stack.push((start, false, false));
            proof {
                assert(event_views(output@) =~= r.0);
                assert(frame_views(stack@) =~= r.1);
            }
        } else if is_markable_end(&event) {
            let top = stack.pop();
            if let Some(f) = top {
                if f.2 {
                    output.push(MdEvent::Html(INCOMPLETE_SPAN_CLOSE.to_owned()));
                }
            }
            output.push(event);
            proof {
                assert(event_views(output@) =~= r.0);
                assert(frame_views(stack@) =~= r.1);
            }
        } else {
            let trimmed: Option<String> = match &event {
                MdEvent::Text(t) => Some(trim_start_ws(t.as_str())),
                _ => None,
            };
            if let Some(tt) = trimmed {
                let n = stack.len();
                if n > 0 && !stack[n - 1].1 {
                    let f = stack[n - 1];
                    assert(frame_views(stack@)[n - 1] == st.1.last());
                    let m = output.len();
                    assert(f.0 < m) by {
                        assert(0 <= st.1[n - 1].0 < st.0.len());
                        assert(event_views(output@).len() == output@.len());
                    }
                    if regex_matches(marker_re, tt.as_str()) {
                        output.insert(f.0 + 1, MdEvent::Html(INCOMPLETE_SPAN_OPEN.to_owned()));
                        stack.set(n - 1, (f.0, true, true));
                    } else {
                        stack.set(n - 1, (f.0, true, f.2));
                    }
                }
            }
            output.push(event);
            proof {
                assert(event_views(output@) =~= r.0);
                assert(frame_views(stack@) =~= r.1);
            }
        }
        i += 1;
    }
    assert(ev.take(events@.len() as int) =~= ev);
    output
}

/// Whether an event is the highlight's opening or closing.
pub open spec fn is_span_markup(e: MdEventView) -> bool {
    e == span_open_event() || e == span_close_event()
}

/// `s` without the highlight's openings and closings.
pub open spec fn without_spans(s: Seq<MdEventView>) -> Seq<MdEventView>
    decreases s.len(),
{
    if s.len() == 0 {
        s
    } else {
        without_spans(s.drop_last()) + if is_span_markup(s.last()) {
            Seq::empty()
        } else {
            seq![s.last()]
        }
    }
}

proof fn lemma_without_spans_add(a: Seq<MdEventView>, b: Seq<MdEventView>)
    ensures
        without_spans(a + b) == without_spans(a) + without_spans(b),
    decreases b.len(),
{
    if b.len() == 0 {
        assert(a + b =~= a);
        assert(without_spans(a) + without_spans(b) =~= without_spans(a));
    } else {
        lemma_without_spans_add(a, b.drop_last());
        assert((a + b).drop_last() =~= a + b.drop_last());
        assert((a + b).last() == b.last());
        let tail: Seq<MdEventView> = if is_span_markup(b.last()) {
            Seq::empty()
        } else {
            seq![b.last()]
        };
        assert(without_spans(a) + without_spans(b.drop_last()) + tail =~= without_spans(a) + (without_spans(
            b.drop_last(),
        ) + tail));
    }
}

proof fn lemma_without_spans_insert(s: Seq<MdEventView>, k: int, x: MdEventView)
    requires
        0 <= k <= s.len(),
        is_span_markup(x),
    ensures
        without_spans(s.insert(k, x)) == without_spans(s),
{
    assert(s.insert(k, x) =~= s.take(k) + (seq![x] + s.skip(k)));
    assert(s =~= s.take(k) + s.skip(k));
    lemma_without_spans_add(s.take(k), seq![x] + s.skip(k));
    lemma_without_spans_add(seq![x], s.skip(k));
    lemma_without_spans_add(s.take(k), s.skip(k));
    assert(seq![x].drop_last() =~= Seq::<MdEventView>::empty());
    assert(seq![x].last() == x);
    assert(without_spans(Seq::<MdEventView>::empty()) =~= Seq::<MdEventView>::empty());
    assert(without_spans(seq![x]) =~= Seq::<MdEventView>::empty());
    assert(without_spans(seq![x]) + without_spans(s.skip(k)) =~= without_spans(s.skip(k)));
}

proof fn lemma_without_spans_push(s: Seq<MdEventView>, x: MdEventView)
    ensures
        without_spans(s.push(x)) == without_spans(s) + if is_span_markup(x) {
            Seq::empty()
        } else {
            seq![x]
        },
{
    assert(s.push(x).drop_last() =~= s);
}

/// Marking blocks incomplete only adds the highlight's openings and
/// closings: with those taken out, the events are the ones given.
pub proof fn law_marking_only_adds_highlights(ev: Seq<MdEventView>, pattern: Seq<char>)
    ensures
        without_spans(marked_events(ev, pattern)) == without_spans(ev),
    decreases ev.len(),
{
    if ev.len() > 0 {
        law_marking_only_adds_highlights(ev.drop_last(), pattern);
        lemma_mark_run_frames(ev.drop_last(), pattern);
        let st = mark_run(ev.drop_last(), pattern);
        let e = ev.last();
        let r = mark_step(st, e, pattern);
        assert(r == mark_run(ev, pattern));
        lemma_without_spans_push(ev.drop_last(), e);
        assert(ev.drop_last().push(e) =~= ev);
        if opens_markable(e) {
            lemma_without_spans_push(st.0, e);
        } else if closes_markable(e) {
            if st.1.len() > 0 && st.1.last().2 {
                lemma_without_spans_push(st.0, span_close_event());
                lemma_without_spans_push(st.0.push(span_close_event()), e);
                assert(without_spans(st.0) + Seq::<MdEventView>::empty() =~= without_spans(st.0));
            } else {
                lemma_without_spans_push(st.0, e);
            }
        } else {
            match e {
                MdEventView::Text(t) => {
                    if st.1.len() > 0 && !st.1.last().1 && regex_is_match(pattern, trim_ws_start(t)) {
                        let f = st.1.last();
                        assert(0 <= st.1[st.1.len() - 1].0 < st.0.len());
                        lemma_without_spans_insert(st.0, f.0 + 1, span_open_event());
                        lemma_without_spans_push(st.0.insert(f.0 + 1, span_open_event()), e);
                    } else {
                        lemma_without_spans_push(st.0, e);
                    }
                },
                _ => {
                    lemma_without_spans_push(st.0, e);
                },
            }
        }
    }
}

/// How many times `x` occurs in `s`.
pub open spec fn count_of(s: Seq<MdEventView>, x: MdEventView) -> nat
    decreases s.len(),
{
    if s.len() == 0 {
        0
    } else {
        count_of(s.drop_last(), x) + if s.last() == x {
            1nat
        } else {
            0nat
        }
    }
}

/// How many open blocks were marked.
pub open spec fn marked_frames(stack: Seq<MarkFrame>) -> nat
    decreases stack.len(),
{
    if stack.len() == 0 {
        0
    } else {
        marked_frames(stack.drop_last()) + if stack.last().2 {
            1nat
        } else {
            0nat
        }
    }
}

proof fn lemma_count_add(a: Seq<MdEventView>, b: Seq<MdEventView>, x: MdEventView)
    ensures
        count_of(a + b, x) == count_of(a, x) + count_of(b, x),
    decreases b.len(),
{
    if b.len() == 0 {
        assert(a + b =~= a);
    } else {
        lemma_count_add(a, b.drop_last(), x);
        assert((a + b).drop_last() =~= a + b.drop_last());
        assert((a + b).last() == b.last());
    }
}

proof fn lemma_count_insert(s: Seq<MdEventView>, k: int, y: MdEventView, x: MdEventView)
    requires
        0 <= k <= s.len(),
    ensures
        count_of(s.insert(k, y), x) == count_of(s, x) + if y == x {
            1nat
        } else {
            0nat
        },
{
    assert(s.insert(k, y) =~= s.take(k) + (seq![y] + s.skip(k)));
    assert(s =~= s.take(k) + s.skip(k));
    lemma_count_add(s.take(k), seq![y] + s.skip(k), x);
    lemma_count_add(seq![y], s.skip(k), x);
    lemma_count_add(s.take(k), s.skip(k), x);
    assert(seq![y].drop_last() =~= Seq::<MdEventView>::empty());
    assert(seq![y].last() == y);
    assert(count_of(Seq::<MdEventView>::empty(), x) == 0);
    assert(count_of(seq![y], x) == count_of(Seq::<MdEventView>::empty(), x) + if y == x {
        1nat
    } else {
        0nat
    });
}

proof fn lemma_span_events_differ()
    ensures
        span_open_event() != span_close_event(),
{
    reveal_strlit("<span class=\"mbr-incomplete\">");
    reveal_strlit("</span>");
    assert(INCOMPLETE_SPAN_OPEN@.len() != INCOMPLETE_SPAN_CLOSE@.len());
}

proof fn lemma_count_push(s: Seq<MdEventView>, y: MdEventView, x: MdEventView)
    ensures
        count_of(s.push(y), x) == count_of(s, x) + if y == x {
            1nat
        } else {
            0nat
        },
{
    assert(s.push(y).drop_last() =~= s);
}

/// The marking pass so far: every marked frame has seen its text, and the
/// highlights it added but has not closed yet are the marked open blocks.
proof fn lemma_mark_balance(ev: Seq<MdEventView>, pattern: Seq<char>)
    ensures
        forall|i: int| 0 <= i < mark_run(ev, pattern).1.len() ==> (#[trigger] mark_run(ev, pattern).1[i]).2
            ==> mark_run(ev, pattern).1[i].1,
        count_of(mark_run(ev, pattern).0, span_close_event()) >= count_of(ev, span_close_event()),
        (count_of(mark_run(ev, pattern).0, span_open_event()) - count_of(ev, span_open_event())) - (count_of(
            mark_run(ev, pattern).0,
            span_close_event(),
        ) - count_of(ev, span_close_event())) == marked_frames(mark_run(ev, pattern).1),
    decreases ev.len(),
{
    let op = span_open_event();
    let cl = span_close_event();
    lemma_span_events_differ();
    if ev.len() == 0 {
    } else {
        let init = ev.drop_last();
        lemma_mark_balance(init, pattern);
        lemma_mark_run_frames(init, pattern);
        let st = mark_run(init, pattern);
        let e = ev.last();
        let r = mark_step(st, e, pattern);
        assert(r == mark_run(ev, pattern));
        assert(init.push(e) =~= ev);
        lemma_count_push(init, e, op);
        lemma_count_push(init, e, cl);
        if opens_markable(e) {
            lemma_count_push(st.0, e, op);
            lemma_count_push(st.0, e, cl);
            assert(st.1.push((st.0.len() as int, false, false)).drop_last() =~= st.1);
            assert(marked_frames(r.1) == marked_frames(st.1));
            assert forall|i: int| 0 <= i < r.1.len() implies (#[trigger] r.1[i]).2 ==> r.1[i].1 by {
                if i < st.1.len() {
                    assert(r.1[i] == st.1[i]);
                }
            }
        } else if closes_markable(e) {
            if st.1.len() > 0 {
                assert(st.1.drop_last() == r.1);
                assert(marked_frames(st.1) == marked_frames(r.1) + if st.1.last().2 {
                    1nat
                } else {
                    0nat
                });
                assert forall|i: int| 0 <= i < r.1.len() implies (#[trigger] r.1[i]).2 ==> r.1[i].1 by {
                    assert(r.1[i] == st.1[i]);
                }
            }
            if st.1.len() > 0 && st.1.last().2 {
                lemma_count_push(st.0, cl, op);
                lemma_count_push(st.0, cl, cl);
                lemma_count_push(st.0.push(cl), e, op);
                lemma_count_push(st.0.push(cl), e, cl);
            } else {
                lemma_count_push(st.0, e, op);
                lemma_count_push(st.0, e, cl);
            }
        } else {
            match e {
                MdEventView::Text(t) => {
                    if st.1.len() > 0 && !st.1.last().1 {
                        let f = st.1.last();
                        assert(st.1[st.1.len() - 1] == f);
                        assert(!f.2);
                        let n = (st.1.len() - 1) as int;
                        assert(0 <= st.1[n].0 < st.0.len());
                        if regex_is_match(pattern, trim_ws_start(t)) {
                            lemma_count_insert(st.0, f.0 + 1, op, op);
                            lemma_count_insert(st.0, f.0 + 1, op, cl);
                            lemma_count_push(st.0.insert(f.0 + 1, op), e, op);
                            lemma_count_push(st.0.insert(f.0 + 1, op), e, cl);
                            assert(r.1 =~= st.1.drop_last().push((f.0, true, true)));
                        } else {
                            lemma_count_push(st.0, e, op);
                            lemma_count_push(st.0, e, cl);
                            assert(r.1 =~= st.1.drop_last().push((f.0, true, f.2)));
                        }
                        assert(st.1.drop_last().push(f) =~= st.1);
                        assert(r.1.drop_last() =~= st.1.drop_last());
                        assert(marked_frames(st.1) == marked_frames(st.1.drop_last()));
                        assert(marked_frames(r.1) == marked_frames(st.1.drop_last()) + if r.1.last().2 {
                            1nat
                        } else {
                            0nat
                        });
                        assert forall|i: int| 0 <= i < r.1.len() implies (#[trigger] r.1[i]).2 ==> r.1[i].1 by {
                            if i < n {
                                assert(r.1[i] == st.1[i]);
                            }
                        }
                    } else {
                        lemma_count_push(st.0, e, op);
                        lemma_count_push(st.0, e, cl);
                    }
                },
                _ => {
                    lemma_count_push(st.0, e, op);
                    lemma_count_push(st.0, e, cl);
                },
            }
        }
    }
}

/// Highlights come in pairs: once every block that opened has closed,
/// marking added as many highlight openings as closings.
pub proof fn law_highlights_come_in_pairs(ev: Seq<MdEventView>, pattern: Seq<char>)
    requires
        mark_run(ev, pattern).1.len() == 0,
    ensures
        count_of(marked_events(ev, pattern), span_open_event()) - count_of(ev, span_open_event()) == count_of(
            marked_events(ev, pattern),
            span_close_event(),
        ) - count_of(ev, span_close_event()),
{
    lemma_mark_balance(ev, pattern);
}

// ---------------------------------------------------------------------------
// Alerts and rules with attributes
// ---------------------------------------------------------------------------

/// The em dash (U+2014) that `---` becomes with smart punctuation.
pub const EM_DASH: char = '\u{2014}';

/// The text of a paragraph that stands for a thematic break with
/// attributes: `--- {attrs}` as the parser reads it, an em dash, a space
/// and a braced list.
pub open spec fn is_rule_attrs_text(t: Seq<char>) -> bool {
    t.len() >= 4 && t[0] == EM_DASH && t[1] == ' ' && t[2] == '{' && t.last() == '}'
}

/// One event of the block rewrite over the output so far and whether an
/// alert is open. A paragraph whose first text starts with a remark-hint
/// marker becomes an alert holding the paragraph without the marker; the
/// paragraph's end then closes the alert too. A paragraph that is only an
/// em dash and a braced list becomes a thematic break.
pub open spec fn block_step(st: (Seq<MdEventView>, bool), e: MdEventView) -> (Seq<MdEventView>, bool) {
    let out = st.0;
    let alert_open = st.1;
    match e {
        MdEventView::Text(t) => match hint_prefix(t) {
            Some((kind, rest)) => if out.len() > 0 && out.last() == MdEventView::StartParagraph {
                (
                    out.drop_last().push(MdEventView::StartAlert(kind)).push(MdEventView::StartParagraph).push(
                        MdEventView::Text(rest),
                    ),
                    true,
                )
            } else {
                (out.push(e), alert_open)
            },
            None => (out.push(e), alert_open),
        },
        MdEventView::EndParagraph => if alert_open {
            (out.push(MdEventView::EndParagraph).push(MdEventView::EndAlert), false)
        } else if out.len() >= 2 && out[out.len() - 2] == MdEventView::StartParagraph && (match out.last() {
            MdEventView::Text(t) => is_rule_attrs_text(t),
            _ => false,
        }) {
            (out.take(out.len() - 2).push(MdEventView::Rule), alert_open)
        } else {
            (out.push(e), alert_open)
        },
        _ => (out.push(e), alert_open),
    }
}

/// The block rewrite over `ev`.
pub open spec fn blocks_run(ev: Seq<MdEventView>) -> (Seq<MdEventView>, bool)
    decreases ev.len(),
{
    if ev.len() == 0 {
        (Seq::empty(), false)
    } else {
        block_step(blocks_run(ev.drop_last()), ev.last())
    }
}

/// `ev` with remark-hint paragraphs turned into alerts and `--- {attrs}`
/// paragraphs into thematic breaks.
pub open spec fn rewritten_blocks(ev: Seq<MdEventView>) -> Seq<MdEventView> {
    blocks_run(ev).0
}

fn is_start_paragraph(e: &MdEvent) -> (r: bool)
    ensures
        r == (e@ == MdEventView::StartParagraph),
{
    match e {
        MdEvent::StartParagraph => true,
        _ => false,
    }
}

fn is_rule_attrs_event(e: &MdEvent) -> (r: bool)
    ensures
        r == (match e@ {
            MdEventView::Text(t) => is_rule_attrs_text(t),
            _ => false,
        }),
{
    match e {
        MdEvent::Text(t) => {
            let v = chars_of(t.as_str());
            v.len() >= 4 && v[0] == EM_DASH && v[1] == ' ' && v[2] == '{' && v[v.len() - 1] == '}'
        },
        _ => false,
    }
}

/// Turns a paragraph whose first text starts with `!> `, `?> ` or `x> `
/// into the matching alert (without the marker), and a paragraph that reads
/// `--- {attrs}` into a thematic break.
pub fn rewrite_blocks(events: Vec<MdEvent>) -> (r: Vec<MdEvent>)
    ensures
        event_views(r@) == rewritten_blocks(event_views(events@)),
{
    let ghost ev = event_views(events@);
    let mut out: Vec<MdEvent> = Vec::new();
    let mut alert_open = false;
    let mut i: usize = 0;
    assert(ev.take(0) =~= Seq::<MdEventView>::empty());
    assert(event_views(out@) =~= Seq::<MdEventView>::empty());
    while i < events.len()
        invariant
            ev == event_views(events@),
            i <= events@.len(),
            event_views(out@) == blocks_run(ev.take(i as int)).0,
            alert_open == blocks_run(ev.take(i as int)).1,
        decreases events@.len() - i,
    {
        let ghost st = blocks_run(ev.take(i as int));
        proof {
            assert(ev.take(i + 1).drop_last() =~= ev.take(i as int));
            assert(ev.take(i + 1).last() == events@[i as int]@);
        }
        let event = copy_event(&events[i]);
        let ghost r = block_step(st, event@);
        assert(r == blocks_run(ev.take(i + 1)));
        let hint: Option<(HintKind, String)> = match &event {
            MdEvent::Text(t) => match detect_hint_prefix(t.as_str()) {
                Some((kind, rest)) => Some((kind, rest.to_owned())),
                None => None,
            },
            _ => None,
        };
        let after_paragraph_start = out.len() > 0 && is_start_paragraph(&out[out.len() - 1]);
        if hint.is_some() && after_paragraph_start {
            let (kind, rest) = hint.unwrap();
            let ghost rv = rest@;
            out.pop();
            out.push(MdEvent::StartAlert(kind));
            out.push(MdEvent::StartParagraph);
            out.push(MdEvent::Text(rest));
            alert_open = true;
            proof {
                assert(event_views(out@) =~= st.0.drop_last().push(MdEventView::StartAlert(kind)).push(
                    MdEventView::StartParagraph,
                ).push(MdEventView::Text(rv)));
            }
        } else if is_end_paragraph(&event) {
            if alert_open {
                out.push(event);
                out.push(MdEvent::EndAlert);
                alert_open = false;
                proof {
                    assert(event_views(out@) =~= r.0);
                }
            } else {
                let n = out.len();
                if n >= 2 && is_start_paragraph(&out[n - 2]) && is_rule_attrs_event(&out[n - 1]) {
                    out.pop();
                    out.pop();
                    out.push(MdEvent::Rule);
                    proof {
                        assert(st.0.take(n - 2) =~= st.0.drop_last().drop_last());
                        assert(event_views(out@) =~= r.0);
                    }
                } else {
                    out.push(event);
                    proof {
                        assert(event_views(out@) =~= r.0);
                    }
                }
            }
        } else {
            out.push(event);
            proof {
                assert(event_views(out@) =~= r.0);
            }
        }
        i += 1;
    }
    assert(ev.take(events@.len() as int) =~= ev);
    out
}

fn is_end_paragraph(e: &MdEvent) -> (r: bool)
    ensures
        r == (e@ == MdEventView::EndParagraph),
{
    match e {
        MdEvent::EndParagraph => true,
        _ => false,
    }
}

// ---------------------------------------------------------------------------
// Parsing a document without rendering it
// ---------------------------------------------------------------------------

/// The number of words in `s`: maximal runs of characters that are not
/// white space, as `str::split_whitespace` yields them.
pub open spec fn word_count_of(s: Seq<char>) -> nat
    decreases s.len(),
{
    if s.len() == 0 {
        0
    } else {
        word_count_of(s.drop_last()) + if !is_unicode_whitespace(s.last()) && (s.len() == 1
            || is_unicode_whitespace(s[s.len() - 2])) {
            1nat
        } else {
            0nat
        }
    }
}

pub(crate) proof fn lemma_word_count_bound(s: Seq<char>)
    ensures
        word_count_of(s) <= s.len(),
    decreases s.len(),
{
    if s.len() > 0 {
        lemma_word_count_bound(s.drop_last());
    }
}

/// Words add up across a space: the words of `a`, a space and `b` are the
/// words of `a` and then those of `b`, none merged or split.
pub proof fn law_words_add_across_a_space(a: Seq<char>, b: Seq<char>)
    ensures
        word_count_of(a + seq![' '] + b) == word_count_of(a) + word_count_of(b),
    decreases b.len(),
{
    let x = a + seq![' '] + b;
    if b.len() == 0 {
        assert(x.drop_last() =~= a);
        assert(x.last() == ' ');
    } else {
        law_words_add_across_a_space(a, b.drop_last());
        assert(x.drop_last() =~= a + seq![' '] + b.drop_last());
        assert(x.last() == b.last());
        if b.len() == 1 {
            assert(x[x.len() - 2] == ' ');
            assert(b.drop_last() =~= Seq::<char>::empty());
        } else {
            assert(x[x.len() - 2] == b[b.len() - 2]);
        }
    }
}

/// The number of words in `s`.
pub fn count_words(s: &str) -> (r: usize)
    ensures
        r == word_count_of(s@),
{
    let v = chars_of(s);
    let mut n: usize = 0;
    let mut i: usize = 0;
    while i < v.len()
        invariant
            v@ == s@,
            i <= v@.len(),
            n == word_count_of(v@.take(i as int)),
        decreases v@.len() - i,
    {
        proof {
            assert(v@.take(i + 1).drop_last() =~= v@.take(i as int));
            lemma_word_count_bound(v@.take(i as int));
        }
        if !is_unicode_whitespace_exec(v[i]) && (i == 0 || is_unicode_whitespace_exec(v[i - 1])) {
            n = n + 1;
        }
        i += 1;
    }
    assert(v@.take(v@.len() as int) =~= v@);
    n
}

/// What a pass over a document's events gathers: the frontmatter read from
/// the text of a YAML block, the words of the text outside code blocks and
/// frontmatter, and whether a YAML block, a code block or any frontmatter
/// block is open.
pub type DocScan = (Map<Seq<char>, MetaView>, int, bool, bool, bool);

/// One event of that pass.
pub open spec fn doc_step(st: DocScan, e: MdEventView) -> DocScan {
    let (fm, words, in_yaml, in_code, in_meta) = st;
    match e {
        MdEventView::StartMetadata(true) => (fm, words, true, in_code, true),
        MdEventView::EndMetadata(true) => (fm, words, false, in_code, false),
        MdEventView::Text(t) if in_yaml => (yaml_metadata(yaml_first_document(t)), words, false, in_code, in_meta),
        MdEventView::StartMetadata(false) => (fm, words, in_yaml, in_code, true),
        MdEventView::EndMetadata(false) => (fm, words, in_yaml, in_code, false),
        MdEventView::StartCodeBlock => (fm, words, in_yaml, true, in_meta),
        MdEventView::EndCodeBlock => (fm, words, in_yaml, false, in_meta),
        MdEventView::Text(t) if !in_code && !in_meta => (fm, words + word_count_of(t), in_yaml, in_code, in_meta),
        _ => st,
    }
}

/// The pass over `ev`.
pub open spec fn doc_scan(ev: Seq<MdEventView>) -> DocScan
    decreases ev.len(),
{
    if ev.len() == 0 {
        (Map::empty(), 0, false, false, false)
    } else {
        doc_step(doc_scan(ev.drop_last()), ev.last())
    }
}

/// A markdown document parsed without rendering: its text, frontmatter,
/// table of contents and word count.
pub struct ParsedDocument {
    /// The markdown source, without a leading byte-order mark.
    pub source: String,
    /// Frontmatter metadata, with the first heading as `title` when the
    /// frontmatter has none and the document starts with a level-1 heading.
    pub frontmatter: Metadata,
    /// Headings with their anchor ids.
    pub headings: Vec<HeadingInfo>,
    /// Whether the first heading is a level-1 heading.
    pub has_h1: bool,
    /// Words outside code blocks and frontmatter.
    pub word_count: usize,
}

impl ParsedDocument {
    /// The events of the document, parsed as the renderer parses a page.
    pub fn events(&self) -> (r: Vec<MdEvent>)
        ensures
            event_views(r@) == parsed_events(self.source@, true),
    {
        markdown_events(self.source.as_str())
    }
}

/// The headings of a document's events.
pub open spec fn doc_headings(ev: Seq<MdEventView>) -> Seq<(u8, Seq<char>, Seq<char>)> {
    headings_from(ev, 0, None, Map::empty())
}

/// Whether the first heading is a level-1 heading.
pub open spec fn doc_has_h1(ev: Seq<MdEventView>) -> bool {
    doc_headings(ev).len() > 0 && doc_headings(ev)[0].0 == 1
}

/// The frontmatter of a document: what the pass read, and with no `title`
/// there, the text of a leading level-1 heading.
pub open spec fn doc_frontmatter(ev: Seq<MdEventView>) -> Map<Seq<char>, MetaView> {
    let fm = doc_scan(rewritten_blocks(ev)).0;
    if !fm.dom().contains(title_key()) && doc_has_h1(ev) {
        fm.insert(title_key(), MetaView::Text(doc_headings(ev)[0].1))
    } else {
        fm
    }
}

/// Parses `source` (without a byte-order mark) into a [`ParsedDocument`]:
/// headings with anchor ids, frontmatter from the YAML block (a page
/// without a frontmatter `title` whose first heading is a level-1 heading
/// takes that heading's text), and the words outside code blocks and
/// frontmatter once remark-hint markers and `--- {attrs}` lines are
/// rewritten. `None` when the counts would not fit a machine word.
pub fn parse_document(source: String) -> (r: Option<ParsedDocument>)
    ensures
        match r {
            Some(d) => {
                let ev = parsed_events(source@, true);
                &&& d.source@ == source@
                &&& heading_views(d.headings@) == doc_headings(ev)
                &&& forall|k: int| 0 <= k < d.headings@.len() ==> 1 <= #[trigger] d.headings@[k].level <= 6
                &&& d.has_h1 == doc_has_h1(ev)
                &&& d.word_count == doc_scan(rewritten_blocks(ev)).1
                &&& d.frontmatter@ == doc_frontmatter(ev)
            },
            None => 4 * parsed_events(source@, true).len() + 2 > usize::MAX || doc_scan(
                rewritten_blocks(parsed_events(source@, true)),
            ).1 > usize::MAX,
        },
{
    let events = markdown_events(source.as_str());
    let ghost ev = event_views(events@);
    if events.len() > (usize::MAX - 2) / 4 {
        return None;
    }
    let headings = collect_headings(&events);
    let has_h1 = headings.len() > 0 && headings[0].level == 1;
    assert(has_h1 == doc_has_h1(ev)) by {
        if headings@.len() > 0 {
            assert(heading_views(headings@)[0] == heading_view(headings@[0]));
        }
    }
    let blocks = rewrite_blocks(events);
    let ghost bv = event_views(blocks@);
    let mut frontmatter = Metadata::new();
    let mut word_count: usize = 0;
    let mut in_yaml = false;
    let mut in_code = false;
    let mut in_meta = false;
    let mut i: usize = 0;
    assert(bv.take(0) =~= Seq::<MdEventView>::empty());
    while i < blocks.len()
        invariant
            bv == event_views(blocks@),
            bv == rewritten_blocks(parsed_events(source@, true)),
            i <= blocks@.len(),
            doc_scan(bv.take(i as int)) == (frontmatter@, word_count as int, in_yaml, in_code, in_meta),
        decreases blocks@.len() - i,
    {
        proof {
            assert(bv.take(i + 1).drop_last() =~= bv.take(i as int));
            assert(bv.take(i + 1).last() == blocks@[i as int]@);
        }
        match &blocks[i] {
            MdEvent::StartMetadata(true) => {
                in_yaml = true;
                in_meta = true;
            },
            MdEvent::EndMetadata(true) => {
                in_yaml = false;
                in_meta = false;
            },
            MdEvent::Text(t) => {
                if in_yaml {
                    let doc = load_first_yaml_doc(t.as_str());
                    frontmatter = yaml_frontmatter_simplified(&doc);
                    in_yaml = false;
                } else if !in_code && !in_meta {
                    let n = count_words(t.as_str());
                    match word_count.checked_add(n) {
                        Some(w) => {
                            word_count = w;
                        },
                        None => {
                            proof {
                                lemma_doc_words_grow(bv, i + 1);
                                assert(bv.take(i + 1).drop_last() =~= bv.take(i as int));
                                assert(doc_scan(bv.take(i + 1)).1 == word_count + n);
                            }
                            return None;
                        },
                    }
                }
            },
            MdEvent::StartMetadata(false) => {
                in_meta = true;
            },
            MdEvent::EndMetadata(false) => {
                in_meta = false;
            },
            MdEvent::StartCodeBlock => {
                in_code = true;
            },
            MdEvent::EndCodeBlock => {
                in_code = false;
            },
            _ => {},
        }
        i += 1;
    }
    assert(bv.take(blocks@.len() as int) =~= bv);
    proof {
        reveal_strlit("title");
        assert("title"@ =~= title_key());
    }
    if !frontmatter.contains_key("title") && has_h1 {
        let t = headings[0].text.clone();
        assert(heading_views(headings@)[0] == heading_view(headings@[0]));
        frontmatter.insert("title".to_owned(), MetaValue::Text(t));
    }
    Some(ParsedDocument { source, frontmatter, headings, has_h1, word_count })
}

/// The words a pass counts never go down as it reads on.
proof fn lemma_doc_words_grow(ev: Seq<MdEventView>, i: int)
    requires
        0 <= i <= ev.len(),
    ensures
        doc_scan(ev.take(i)).1 <= doc_scan(ev).1,
    decreases ev.len() - i,
{
    if i < ev.len() {
        lemma_doc_words_grow(ev, i + 1);
        assert(ev.take(i + 1).drop_last() =~= ev.take(i));
        lemma_doc_step_grows(doc_scan(ev.take(i)), ev[i]);
    } else {
        assert(ev.take(i) =~= ev);
    }
}

proof fn lemma_doc_step_grows(st: DocScan, e: MdEventView)
    ensures
        st.1 <= doc_step(st, e).1,
{
}

/// What the scan for the first level-1 heading finds from event `i` on,
/// `open` telling whether a level-1 heading is open and `acc` holding the
/// text gathered for it: the text (plain and code spans) of the first one
/// whose text is not empty.
pub open spec fn first_h1_from(ev: Seq<MdEventView>, i: int, open: bool, acc: Seq<char>) -> Option<Seq<char>>
    decreases ev.len() - i,
{
    if i < 0 || i >= ev.len() {
        None
    } else {
        match ev[i] {
            MdEventView::StartHeading(l) => if l == 1 {
                first_h1_from(ev, i + 1, true, acc)
            } else {
                first_h1_from(ev, i + 1, open, acc)
            },
            MdEventView::Text(t) => first_h1_from(ev, i + 1, open, if open { acc + t } else { acc }),
            MdEventView::Code(t) => first_h1_from(ev, i + 1, open, if open { acc + t } else { acc }),
            MdEventView::EndHeading(l) => if l == 1 {
                if acc.len() > 0 {
                    Some(acc)
                } else {
                    first_h1_from(ev, i + 1, false, acc)
                }
            } else {
                first_h1_from(ev, i + 1, open, acc)
            },
            _ => first_h1_from(ev, i + 1, open, acc),
        }
    }
}

/// The text of the first level-1 heading of `markdown_input`, code spans
/// included and formatting dropped; the title of a page without one in its
/// frontmatter. Frontmatter is skipped; later level-1 headings are ignored.
pub fn extract_first_h1(markdown_input: &str) -> (r: Option<String>)
    ensures
        opt_view(r) == first_h1_from(parsed_events(markdown_input@, false), 0, false, Seq::empty()),
{
    let events = parse_markdown(markdown_input, false);
    let ghost ev = event_views(events@);
    let mut open = false;
    let mut acc: Vec<char> = Vec::new();
    let mut i: usize = 0;
    while i < events.len()
        invariant
            ev == event_views(events@),
            ev == parsed_events(markdown_input@, false),
            i <= events@.len(),
            first_h1_from(ev, i as int, open, acc@) == first_h1_from(ev, 0, false, Seq::empty()),
        decreases events@.len() - i,
    {
        assert(ev[i as int] == events@[i as int]@);
        match &events[i] {
            MdEvent::StartHeading(l) => {
                if *l == 1 {
                    open = true;
                }
            },
            MdEvent::Text(t) => {
                if open {
                    let c = chars_of(t.as_str());
                    push_all(&mut acc, &c);
                }
            },
            MdEvent::Code(t) => {
                if open {
                    let c = chars_of(t.as_str());
                    push_all(&mut acc, &c);
                }
            },
            MdEvent::EndHeading(l) => {
                if *l == 1 {
                    if acc.len() > 0 {
                        assert(first_h1_from(ev, i as int, open, acc@) == Some(acc@));
                        let r = string_of(&acc);
                        assert(opt_view(Some(r)) == Some(acc@));
                        return Some(r);
                    }
                    open = false;
                }
            },
            _ => {},
        }
        i += 1;
    }
    None
}

/// Text that the renderer treats as a bare URL to embed: it starts with
/// `http` and holds no space.
pub open spec fn is_bare_url(t: Seq<char>) -> bool {
    starts_with(t, seq!['h', 't', 't', 'p']) && !t.contains(' ')
}

/// The bare URLs among the text events from event `i` on, in order and
/// with repeats, given whether a link, a frontmatter block and a code block
/// are open there: text inside any of them is never a bare URL.
pub open spec fn bare_urls_from(ev: Seq<MdEventView>, i: int, in_link: bool, in_meta: bool, in_code: bool) -> Seq<
    Seq<char>,
>
    decreases ev.len() - i,
{
    if i < 0 || i >= ev.len() {
        Seq::empty()
    } else {
        match ev[i] {
            MdEventView::StartLink { .. } => bare_urls_from(ev, i + 1, true, in_meta, in_code),
            MdEventView::EndLink => bare_urls_from(ev, i + 1, false, in_meta, in_code),
            MdEventView::StartMetadata(_) => bare_urls_from(ev, i + 1, in_link, true, in_code),
            MdEventView::EndMetadata(_) => bare_urls_from(ev, i + 1, in_link, false, in_code),
            MdEventView::StartCodeBlock => bare_urls_from(ev, i + 1, in_link, in_meta, true),
            MdEventView::EndCodeBlock => bare_urls_from(ev, i + 1, in_link, in_meta, false),
            MdEventView::Text(t) => if !in_link && !in_meta && !in_code && is_bare_url(t) {
                seq![t] + bare_urls_from(ev, i + 1, in_link, in_meta, in_code)
            } else {
                bare_urls_from(ev, i + 1, in_link, in_meta, in_code)
            },
            _ => bare_urls_from(ev, i + 1, in_link, in_meta, in_code),
        }
    }
}

/// Whether `t` starts with `http` and holds no space.
fn bare_url_text(t: &str) -> (r: bool)
    ensures
        r == is_bare_url(t@),
{
    let c = chars_of(t);
    let p: Vec<char> = vec!['h', 't', 't', 'p'];
    if !has_prefix(&c, &p) {
        return false;
    }
    let mut k: usize = 0;
    while k < c.len()
        invariant
            c@ == t@,
            k <= c@.len(),
            forall|j: int| 0 <= j < k ==> c@[j] != ' ',
        decreases c@.len() - k,
    {
        if c[k] == ' ' {
            assert(t@[k as int] == ' ');
            return false;
        }
        k += 1;
    }
    true
}

/// The distinct bare URLs of a page's events, the first occurrence of
/// each in document order: the URLs whose metadata a page fetches. URLs
/// inside links, frontmatter or code blocks are left alone.
pub fn collect_bare_urls(events: &[MdEvent]) -> (r: Vec<String>)
    ensures
        string_views(r@) == dedup(bare_urls_from(event_views(events@), 0, false, false, false)),
{
    let ghost ev = event_views(events@);
    let mut urls: Vec<String> = Vec::new();
    let ghost mut all: Seq<Seq<char>> = Seq::empty();
    let mut in_link = false;
    let mut in_meta = false;
    let mut in_code = false;
    let mut i: usize = 0;
    while i < events.len()
        invariant
            ev == event_views(events@),
            i <= events@.len(),
            bare_urls_from(ev, 0, false, false, false) == all + bare_urls_from(ev, i as int, in_link, in_meta, in_code),
            string_views(urls@) == dedup(all),
        decreases events@.len() - i,
    {
        assert(ev[i as int] == events@[i as int]@);
        match &events[i] {
            MdEvent::StartLink { .. } => { in_link = true; },
            MdEvent::EndLink => { in_link = false; },
            MdEvent::StartMetadata(_) => { in_meta = true; },
            MdEvent::EndMetadata(_) => { in_meta = false; },
            MdEvent::StartCodeBlock => { in_code = true; },
            MdEvent::EndCodeBlock => { in_code = false; },
            MdEvent::Text(t) => {
                if !in_link && !in_meta && !in_code && bare_url_text(t.as_str()) {
                    let ghost old_all = all;
                    proof {
                        all = all.push(t@);
                        assert(all =~= old_all + seq![t@]);
                        assert(all.drop_last() =~= old_all);
                    }
                    let c = chars_of(t.as_str());
                    if !contains_chars(&urls, &c) {
                        let ghost before = urls@;
                        urls.push(t.clone());
                        assert(string_views(urls@) =~= string_views(before).push(t@));
                    }
                }
            },
            _ => {},
        }
        i += 1;
    }
    assert(all + bare_urls_from(ev, i as int, in_link, in_meta, in_code) =~= all);
    urls
}

// ---------------------------------------------------------------------------
// Bounded metadata fetching
// ---------------------------------------------------------------------------

/// Maximum number of distinct bare URLs a single document fetches metadata
/// for; the rest render as plain links.
pub const MAX_OEMBED_FETCHES_PER_DOC: usize = 100;

/// `a` sorts no later than `b`, as `str` orders.
pub open spec fn str_le(a: Seq<char>, b: Seq<char>) -> bool {
    a == b || chars_lt(a, b)
}

/// [`str_le`] as a relation.
pub open spec fn str_order() -> spec_fn(Seq<char>, Seq<char>) -> bool {
    |a: Seq<char>, b: Seq<char>| str_le(a, b)
}

proof fn lemma_str_order_total()
    ensures
        vstd::relations::total_ordering(str_order()),
{
    assert forall|x: Seq<char>| #[trigger] str_order()(x, x) by {}
    assert forall|x: Seq<char>, y: Seq<char>| #[trigger] str_order()(x, y) && #[trigger] str_order()(y, x) implies x
        == y by {
        lemma_chars_lt_trichotomy(x, y);
    }
    assert forall|x: Seq<char>, y: Seq<char>, z: Seq<char>| #[trigger] str_order()(x, y) && #[trigger] str_order()(
        y,
        z,
    ) implies str_order()(x, z) by {
        if chars_lt(x, y) && chars_lt(y, z) {
            lemma_chars_lt_transitive(x, y, z);
        }
    }
    assert forall|x: Seq<char>, y: Seq<char>| #[trigger] str_order()(x, y) || #[trigger] str_order()(y, x) by {
        lemma_chars_lt_trichotomy(x, y);
    }
    assert(vstd::relations::reflexive(str_order()));
    assert(vstd::relations::antisymmetric(str_order()));
    assert(vstd::relations::transitive(str_order()));
    assert(vstd::relations::strongly_connected(str_order()));
}

fn str_position(out: &Vec<String>, x: &String) -> (j: usize)
    requires
        vstd::relations::sorted_by(views_of(out@), str_order()),
    ensures
        j <= out@.len(),
        forall|k: int| 0 <= k < j ==> str_le(#[trigger] out@[k]@, x@),
        j < out@.len() ==> !str_le(out@[j as int]@, x@),
{
    let xc = chars_of(x.as_str());
    let mut j: usize = 0;
    while j < out.len()
        invariant
            xc@ == x@,
            j <= out@.len(),
            forall|k: int| 0 <= k < j ==> str_le(#[trigger] out@[k]@, x@),
        decreases out@.len() - j,
    {
        let c = chars_of(out[j].as_str());
        if !(crate::text::chars_eq(&c, &xc) || chars_less(&c, &xc)) {
            return j;
        }
        j += 1;
    }
    j
}

/// Sorts strings into `str` order.
fn sort_strings(v: Vec<String>) -> (r: Vec<String>)
    ensures
        vstd::relations::sorted_by(views_of(r@), str_order()),
        views_of(r@).to_multiset() == views_of(v@).to_multiset(),
{
    broadcast use vstd::seq_lib::group_to_multiset_ensures;
    broadcast use vstd::multiset::group_multiset_axioms;

    proof {
        lemma_str_order_total();
    }
    let ghost all = views_of(v@).to_multiset();
    let mut v = v;
    let mut out: Vec<String> = Vec::new();
    assert(views_of(out@) =~= Seq::<Seq<char>>::empty());
    while v.len() > 0
        invariant
            vstd::relations::total_ordering(str_order()),
            vstd::relations::sorted_by(views_of(out@), str_order()),
            views_of(out@).to_multiset().add(views_of(v@).to_multiset()) == all,
        decreases v@.len(),
    {
        let ghost before = v@;
        let x = v.pop().unwrap();
        assert(views_of(before) =~= views_of(v@).push(x@));
        let ghost ov = views_of(out@);
        let j = str_position(&out, &x);
        proof {
            if j < ov.len() {
                lemma_chars_lt_trichotomy(ov[j as int], x@);
                assert forall|k: int| j < k < ov.len() implies str_le(x@, #[trigger] ov[k]) by {
                    assert(str_order()(ov[j as int], ov[k]));
                    if chars_lt(ov[j as int], ov[k]) && chars_lt(x@, ov[j as int]) {
                        lemma_chars_lt_transitive(x@, ov[j as int], ov[k]);
                    }
                }
            }
        }
        let ghost lv = views_of(v@);
        out.insert(j, x);
        assert(views_of(out@) =~= ov.insert(j as int, x@));
        proof {
            let nv = views_of(out@);
            assert forall|a: int, b: int| 0 <= a < b < nv.len() implies #[trigger] str_order()(nv[a], nv[b]) by {
                if b < j {
                    assert(str_order()(ov[a], ov[b]));
                } else if b == j {
                    assert(str_le(out@[a]@, x@));
                } else if a < j {
                    assert(str_le(ov[a], x@));
                    assert(str_le(x@, ov[b - 1]));
                    assert(str_order()(ov[a], x@));
                    assert(str_order()(x@, ov[b - 1]));
                } else if a == j {
                } else {
                    assert(str_order()(ov[a - 1], ov[b - 1]));
                }
            }
            vstd::seq_lib::to_multiset_insert(ov, j as int, x@);
            lv.to_multiset_ensures();
            assert(views_of(before) == lv.push(x@));
            assert(views_of(before).to_multiset() == lv.to_multiset().insert(x@));
            assert(nv.to_multiset().add(lv.to_multiset()) =~= ov.to_multiset().add(views_of(before).to_multiset()));
        }
    }
    out
}

/// The URLs of `urls` a page fetches metadata for: all of them when there
/// are at most [`MAX_OEMBED_FETCHES_PER_DOC`], else the first that many in
/// [`str_order`].
pub open spec fn fetch_capped(urls: Seq<Seq<char>>) -> Seq<Seq<char>> {
    if urls.len() <= MAX_OEMBED_FETCHES_PER_DOC {
        urls
    } else {
        urls.sort_by(str_order()).take(MAX_OEMBED_FETCHES_PER_DOC as int)
    }
}

/// Applies [`MAX_OEMBED_FETCHES_PER_DOC`] to the URLs still needing a
/// fetch: a longer list is sorted first, so the surviving subset does not
/// depend on the order the URLs were collected in; a list under the cap is
/// passed through unchanged.
pub fn cap_fetch_list(urls: Vec<String>) -> (r: Vec<String>)
    ensures
        views_of(r@) == fetch_capped(views_of(urls@)),
{
    if urls.len() <= MAX_OEMBED_FETCHES_PER_DOC {
        return urls;
    }
    let ghost uv = views_of(urls@);
    let mut sorted = sort_strings(urls);
    let ghost sv = views_of(sorted@);
    proof {
        lemma_str_order_total();
        uv.lemma_sort_by_ensures(str_order());
        vstd::seq_lib::lemma_sorted_unique(sv, uv.sort_by(str_order()), str_order());
        uv.to_multiset_ensures();
        sv.to_multiset_ensures();
    }
    sorted.truncate(MAX_OEMBED_FETCHES_PER_DOC);
    assert(views_of(sorted@) =~= sv.take(MAX_OEMBED_FETCHES_PER_DOC as int));
    sorted
}

/// Which URLs survive the cap depends only on which URLs there are, never
/// on the order they were collected in: two lists holding the same URLs
/// (with the same repeats) keep the same ones, in the same order.
pub proof fn law_fetch_cap_ignores_order(a: Seq<Seq<char>>, b: Seq<Seq<char>>)
    requires
        a.to_multiset() == b.to_multiset(),
        a.len() > MAX_OEMBED_FETCHES_PER_DOC,
    ensures
        fetch_capped(a) == fetch_capped(b),
{
    lemma_str_order_total();
    a.lemma_sort_by_ensures(str_order());
    b.lemma_sort_by_ensures(str_order());
    a.to_multiset_ensures();
    b.to_multiset_ensures();
    vstd::seq_lib::lemma_sorted_unique(a.sort_by(str_order()), b.sort_by(str_order()), str_order());
}

// ---------------------------------------------------------------------------
// Heading anchors
// ---------------------------------------------------------------------------

/// `char::is_alphanumeric` (Unicode `Alphabetic` or `Numeric`).
pub uninterp spec fn alphanumeric(c: char) -> bool;

/// `char::is_alphanumeric` (std). The contract only names the answer as a
/// function of the character.
#[verifier::external_body]
fn is_alphanumeric(c: char) -> (r: bool)
    ensures
        r == alphanumeric(c),
{
    c.is_alphanumeric()
}

/// A character of a lower-cased heading, as it enters its anchor:
/// alphanumerics and `-` stay, whitespace becomes `-`, anything else a
/// space (which then separates words).
pub open spec fn slug_char(c: char) -> char {
    if alphanumeric(c) || c == '-' {
        c
    } else if is_unicode_whitespace(c) {
        '-'
    } else {
        ' '
    }
}

/// Left-to-right scan splitting at whitespace: the words completed so far
/// and the word being read.
pub open spec fn word_scan(s: Seq<char>) -> (Seq<Seq<char>>, Seq<char>)
    decreases s.len(),
{
    if s.len() == 0 {
        (Seq::empty(), Seq::empty())
    } else {
        let prev = word_scan(s.drop_last());
        if is_unicode_whitespace(s.last()) {
            if prev.1.len() > 0 {
                (prev.0.push(prev.1), Seq::empty())
            } else {
                prev
            }
        } else {
            (prev.0, prev.1.push(s.last()))
        }
    }
}

/// `str::split_whitespace`: the non-empty runs of non-whitespace.
pub open spec fn ws_words(s: Seq<char>) -> Seq<Seq<char>> {
    let sc = word_scan(s);
    if sc.1.len() > 0 {
        sc.0.push(sc.1)
    } else {
        sc.0
    }
}

/// The words joined with `-`.
pub open spec fn join_dash(words: Seq<Seq<char>>) -> Seq<char>
    decreases words.len(),
{
    if words.len() == 0 {
        Seq::empty()
    } else if words.len() == 1 {
        words[0]
    } else {
        join_dash(words.drop_last()) + seq!['-'] + words.last()
    }
}

/// The anchor base of a heading: its lower-cased characters mapped by
/// [`slug_char`], split into words at whitespace and joined with `-`; an
/// empty result becomes `heading`.
pub open spec fn anchor_base(text: Seq<char>) -> Seq<char> {
    let b = join_dash(ws_words(lowercase(text).map_values(|c: char| slug_char(c))));
    if b.len() == 0 {
        "heading"@
    } else {
        b
    }
}

proof fn lemma_join_push(words: Seq<Seq<char>>, w: Seq<char>)
    ensures
        join_dash(words.push(w)) == if words.len() == 0 {
            w
        } else {
            join_dash(words) + seq!['-'] + w
        },
{
    assert(words.push(w).drop_last() =~= words);
    if words.len() == 0 {
        assert(words.push(w)[0] == w);
    }
}

proof fn lemma_join_extend(words: Seq<Seq<char>>, w: Seq<char>, c: char)
    ensures
        join_dash(words.push(w.push(c))) == join_dash(words.push(w)).push(c),
{
    lemma_join_push(words, w.push(c));
    lemma_join_push(words, w);
}

proof fn lemma_words_nonempty(s: Seq<char>)
    ensures
        forall|k: int| 0 <= k < word_scan(s).0.len() ==> #[trigger] word_scan(s).0[k].len() > 0,
    decreases s.len(),
{
    if s.len() > 0 {
        lemma_words_nonempty(s.drop_last());
        let prev = word_scan(s.drop_last());
        let cur = word_scan(s);
        assert forall|k: int| 0 <= k < cur.0.len() implies #[trigger] cur.0[k].len() > 0 by {
            if k < prev.0.len() {
                assert(cur.0[k] == prev.0[k]);
            }
        }
    }
}

proof fn lemma_join_nonempty(words: Seq<Seq<char>>)
    requires
        words.len() > 0,
        forall|k: int| 0 <= k < words.len() ==> #[trigger] words[k].len() > 0,
    ensures
        join_dash(words).len() > 0,
{
}

fn anchor_base_of(text: &str) -> (r: Vec<char>)
    ensures
        r@ == anchor_base(text@),
{
    let lower = to_lowercase(text);
    let lc = chars_of(lower.as_str());
    let ghost mapped = lc@.map_values(|c: char| slug_char(c));
    let mut out: Vec<char> = Vec::new();
    let mut cur_len: usize = 0;
    let mut i: usize = 0;
    while i < lc.len()
        invariant
            mapped == lc@.map_values(|c: char| slug_char(c)),
            i <= lc@.len(),
            cur_len == word_scan(mapped.take(i as int)).1.len(),
            cur_len <= i,
            out@ == join_dash(ws_words(mapped.take(i as int))),
        decreases lc@.len() - i,
    {
        let c = lc[i];
        let m = if is_alphanumeric(c) || c == '-' {
            c
        } else if crate::link_transform::is_unicode_whitespace_exec(c) {
            '-'
        } else {
            ' '
        };
        assert(m == mapped[i as int]);
        let ghost prev = word_scan(mapped.take(i as int));
        assert(mapped.take(i + 1).drop_last() =~= mapped.take(i as int));
        assert(mapped.take(i + 1).last() == m);
        if crate::link_transform::is_unicode_whitespace_exec(m) {
            cur_len = 0;
            proof {
                if prev.1.len() > 0 {
                    assert(ws_words(mapped.take(i + 1)) =~= prev.0.push(prev.1));
                }
            }
        } else {
            proof {
                if prev.1.len() > 0 {
                    lemma_join_extend(prev.0, prev.1, m);
                } else {
                    assert(prev.1.push(m) =~= seq![m]);
                    lemma_join_push(prev.0, seq![m]);
                    if prev.0.len() > 0 {
                        assert(join_dash(prev.0).len() > 0) by {
                            lemma_words_nonempty(mapped.take(i as int));
                            lemma_join_nonempty(prev.0);
                        }
                    }
                }
            }
            if cur_len == 0 && out.len() > 0 {
                out.push('-');
            }
            out.push(m);
            cur_len = cur_len + 1;
            assert(out@ =~= join_dash(ws_words(mapped.take(i + 1))));
        }
        i += 1;
    }
    assert(mapped.take(i as int) =~= mapped);
    if out.len() == 0 {
        let h = chars_of("heading");
        h
    } else {
        out
    }
}

/// The decimal digit `d`.
pub open spec fn digit_char(d: nat) -> char {
    (48 + d) as char
}

/// `n` in decimal, as `to_string` writes it.
pub open spec fn decimal(n: nat) -> Seq<char>
    decreases n,
{
    if n < 10 {
        seq![digit_char(n)]
    } else {
        decimal(n / 10).push(digit_char(n % 10))
    }
}

/// The number a string of decimal digits stands for.
pub open spec fn decimal_value(s: Seq<char>) -> int
    decreases s.len(),
{
    if s.len() == 0 {
        0
    } else {
        decimal_value(s.drop_last()) * 10 + (s.last() as int - 48)
    }
}

proof fn lemma_decimal_value(n: nat)
    ensures
        decimal_value(decimal(n)) == n,
        decimal(n).len() > 0,
    decreases n,
{
    if n >= 10 {
        lemma_decimal_value(n / 10);
        assert(decimal(n).drop_last() =~= decimal(n / 10));
        assert(decimal(n).last() == digit_char(n % 10));
        assert(digit_char(n % 10) as int == 48 + n % 10);
        assert(decimal_value(decimal(n)) == decimal_value(decimal(n / 10)) * 10 + (n % 10));
        assert((n / 10) * 10 + n % 10 == n) by (nonlinear_arith);
    } else {
        assert(digit_char(n) as int == 48 + n);
        assert(decimal(n).drop_last() =~= Seq::<char>::empty());
        assert(decimal_value(decimal(n)) == decimal_value(Seq::<char>::empty()) * 10 + (n as int));
    }
}

fn decimal_chars(n: usize) -> (r: Vec<char>)
    ensures
        r@ == decimal(n as nat),
    decreases n,
{
    let digits = ['0', '1', '2', '3', '4', '5', '6', '7', '8', '9'];
    if n < 10 {
        let d = digits[n];
        assert(d == digit_char(n as nat)) by {
            assert(digits@[n as int] == digit_char(n as nat));
        }
        vec![d]
    } else {
        let mut v = decimal_chars(n / 10);
        let d = digits[n % 10];
        assert(d == digit_char((n % 10) as nat)) by {
            assert(digits@[(n % 10) as int] == digit_char((n % 10) as nat));
        }
        v.push(d);
        v
    }
}

/// The anchor id tried for `base` with suffix number `k`: the base itself
/// for the first, `base-k` after that.
pub open spec fn anchor_candidate(base: Seq<char>, k: nat) -> Seq<char> {
    if k <= 1 {
        base
    } else {
        base + seq!['-'] + decimal(k)
    }
}

proof fn lemma_candidate_injective(base: Seq<char>, a: nat, b: nat)
    requires
        a >= 1,
        b >= 1,
        anchor_candidate(base, a) == anchor_candidate(base, b),
    ensures
        a == b,
{
    lemma_decimal_value(a);
    lemma_decimal_value(b);
    if a > 1 && b > 1 {
        let ca = anchor_candidate(base, a);
        assert(ca.skip(base.len() as int + 1) =~= decimal(a));
        assert(anchor_candidate(base, b).skip(base.len() as int + 1) =~= decimal(b));
    }
}

/// The anchor ids issued in one document, each with the last suffix number
/// used for it as a base.
pub struct AnchorIds {
    entries: Vec<(String, usize)>,
}

impl AnchorIds {
    /// The ids, in the order they were first recorded.
    pub closed spec fn keys(self) -> Seq<Seq<char>> {
        self.entries@.map_values(|e: (String, usize)| e.0@)
    }

    #[verifier::type_invariant]
    closed spec fn keys_distinct(self) -> bool {
        self.keys().no_duplicates()
    }

    /// Where `k` is recorded.
    closed spec fn key_index(self, k: Seq<char>) -> int {
        choose|i: int| 0 <= i < self.entries@.len() && self.entries@[i].0@ == k
    }

    /// The suffix number recorded for `k`.
    closed spec fn value_of(self, k: Seq<char>) -> usize {
        self.entries@[self.key_index(k)].1
    }

    /// The number of ids recorded.
    pub closed spec fn size(self) -> nat {
        self.entries@.len()
    }

    /// Every recorded number leaves room for as many more suffixes as there
    /// are ids, so issuing one more id cannot overflow.
    pub open spec fn fits(self) -> bool {
        &&& self.size() + 2 <= usize::MAX
        &&& forall|k: Seq<char>| #[trigger] self@.dom().contains(k) ==> self@[k] + self.size() + 2 <= usize::MAX
    }

    /// No ids issued yet.
    pub fn new() -> (r: Self)
        ensures
            r@ == Map::<Seq<char>, usize>::empty(),
            r.size() == 0,
    {
        let r = AnchorIds { entries: Vec::new() };
        assert(r@ =~= Map::<Seq<char>, usize>::empty());
        r
    }

    fn find(&self, k: &Vec<char>) -> (r: Option<usize>)
        ensures
            match r {
                Some(i) => i < self.entries@.len() && self.keys()[i as int] == k@,
                None => !self.keys().contains(k@),
            },
    {
        let mut i: usize = 0;
        while i < self.entries.len()
            invariant
                i <= self.entries@.len(),
                forall|j: int| 0 <= j < i ==> self.keys()[j] != k@,
            decreases self.entries@.len() - i,
        {
            let c = chars_of(self.entries[i].0.as_str());
            if crate::text::chars_eq(&c, k) {
                return Some(i);
            }
            i += 1;
        }
        proof {
            if self.keys().contains(k@) {
                let j = choose|j: int| 0 <= j < self.keys().len() && self.keys()[j] == k@;
                assert(self.keys()[j] == k@);
            }
        }
        None
    }

    proof fn lemma_value_at(self, i: int)
        requires
            0 <= i < self.entries@.len(),
            self.keys().no_duplicates(),
        ensures
            self@.dom().contains(self.keys()[i]),
            self@[self.keys()[i]] == self.entries@[i].1,
    {
        let k = self.keys()[i];
        assert(self.entries@[i].0@ == k);
        let j = self.key_index(k);
        assert(self.keys()[j] == k);
        assert(j == i);
        assert(self.keys().contains(k));
        assert(self@.dom().contains(k));
        assert(self@[k] == self.value_of(k));
    }

    /// The number recorded for `k`, if any.
    fn get(&self, k: &Vec<char>) -> (r: Option<usize>)
        ensures
            r == if self@.dom().contains(k@) {
                Some(self@[k@])
            } else {
                None
            },
    {
        proof {
            use_type_invariant(self);
        }
        match self.find(k) {
            Some(i) => {
                proof {
                    self.lemma_value_at(i as int);
                }
                Some(self.entries[i].1)
            },
            None => None,
        }
    }

    /// Records `v` for `k`.
    fn set(&mut self, k: &Vec<char>, v: usize)
        ensures
            final(self)@ == old(self)@.insert(k@, v),
            final(self).size() == old(self).size() + if old(self)@.dom().contains(k@) {
                0int
            } else {
                1int
            },
    {
        proof {
            use_type_invariant(&*self);
        }
        let ghost old_self = *self;
        match self.find(k) {
            Some(i) => {
                let key = string_of(k);
                let mut entries: Vec<(String, usize)> = Vec::new();
                std::mem::swap(&mut entries, &mut self.entries);
                entries.set(i, (key, v));
                assert(entries@.map_values(|e: (String, usize)| e.0@) =~= old_self.keys());
                self.entries = entries;
                proof {
                    assert(self.keys() =~= old_self.keys());
                    old_self.lemma_value_at(i as int);
                    assert forall|j: int| 0 <= j < self.entries@.len() implies self@[self.keys()[j]]
                        == self.entries@[j].1 by {
                        self.lemma_value_at(j);
                    }
                    assert forall|x: Seq<char>| #[trigger] self@.dom().contains(x) implies self@[x]
                        == old_self@.insert(k@, v)[x] by {
                        let j = choose|j: int| 0 <= j < self.keys().len() && self.keys()[j] == x;
                        self.lemma_value_at(j);
                        if j != i {
                            old_self.lemma_value_at(j);
                        }
                    }
                    assert(self@ =~= old_self@.insert(k@, v));
                }
            },
            None => {
                let key = string_of(k);
                let mut entries: Vec<(String, usize)> = Vec::new();
                std::mem::swap(&mut entries, &mut self.entries);
                entries.push((key, v));
                assert(entries@.map_values(|e: (String, usize)| e.0@) =~= old_self.keys().push(k@));
                assert(old_self.keys().push(k@).no_duplicates()) by {
                    let ks = old_self.keys();
                    assert forall|a: int, b: int| 0 <= a < ks.len() + 1 && 0 <= b < ks.len() + 1 && a != b implies ks.push(
                        k@,
                    )[a] != ks.push(k@)[b] by {
                        if a == ks.len() {
                            assert(ks.push(k@)[b] == ks[b]);
                        } else if b == ks.len() {
                            assert(ks.push(k@)[a] == ks[a]);
                        }
                    }
                }
                self.entries = entries;
                proof {
                    assert(self.keys() =~= old_self.keys().push(k@));
                    assert forall|x: Seq<char>| #[trigger] self@.dom().contains(x) == old_self@.insert(k@, v).dom().contains(x) by {
                        let ks = old_self.keys();
                        if ks.push(k@).contains(x) {
                            let j = choose|j: int| 0 <= j < ks.push(k@).len() && ks.push(k@)[j] == x;
                            if j < ks.len() {
                                assert(ks[j] == x);
                            }
                        }
                        if ks.contains(x) {
                            let j = choose|j: int| 0 <= j < ks.len() && ks[j] == x;
                            assert(ks.push(k@)[j] == x);
                        }
                        if x == k@ {
                            assert(ks.push(k@)[ks.len() as int] == x);
                        }
                    }
                    assert forall|x: Seq<char>| #[trigger] self@.dom().contains(x) implies self@[x]
                        == old_self@.insert(k@, v)[x] by {
                        let j = choose|j: int| 0 <= j < self.keys().len() && self.keys()[j] == x;
                        self.lemma_value_at(j);
                        if j < old_self.entries@.len() {
                            old_self.lemma_value_at(j);
                        }
                    }
                    assert(self@ =~= old_self@.insert(k@, v));
                }
            },
        }
    }
}

impl AnchorIds {
    proof fn lemma_tried_bound(self, tried: Seq<Seq<char>>)
        requires
            self.keys().no_duplicates(),
            tried.no_duplicates(),
            forall|i: int| 0 <= i < tried.len() ==> #[trigger] self@.dom().contains(tried[i]),
        ensures
            tried.len() <= self.size(),
    {
        tried.unique_seq_to_set();
        self.keys().unique_seq_to_set();
        assert(tried.to_set().subset_of(self.keys().to_set())) by {
            assert forall|x: Seq<char>| tried.to_set().contains(x) implies self.keys().to_set().contains(x) by {
                let i = choose|i: int| 0 <= i < tried.len() && tried[i] == x;
                assert(self@.dom().contains(tried[i]));
            }
        }
        vstd::set_lib::lemma_len_subset(tried.to_set(), self.keys().to_set());
    }

    /// Whether `k` has been issued or used as a base.
    fn contains(&self, k: &Vec<char>) -> (r: bool)
        ensures
            r == self@.dom().contains(k@),
    {
        self.get(k).is_some()
    }
}

/// The suffix number a heading's base starts counting from.
pub open spec fn start_count(ids: Map<Seq<char>, usize>, base: Seq<char>) -> nat {
    if ids.dom().contains(base) {
        ids[base] as nat
    } else {
        0
    }
}

/// The ids after issuing `id` for `base` with suffix number `k`: the
/// number is recorded for the base, and the id itself is reserved.
pub open spec fn after_issue(ids: Map<Seq<char>, usize>, base: Seq<char>, k: nat, id: Seq<char>) -> Map<
    Seq<char>,
    usize,
> {
    let m = ids.insert(base, k as usize);
    if m.dom().contains(id) {
        m
    } else {
        m.insert(id, 0)
    }
}

fn candidate_of(base: &Vec<char>, k: usize) -> (r: Vec<char>)
    ensures
        r@ == anchor_candidate(base@, k as nat),
{
    if k <= 1 {
        crate::text::copy_range(base, 0, base.len())
    } else {
        let mut c = crate::text::copy_range(base, 0, base.len());
        c.push('-');
        let d = decimal_chars(k);
        crate::text::push_all(&mut c, &d);
        c
    }
}

/// Generates a URL-safe anchor id for a heading, unique across the
/// document: the heading's [`anchor_base`], or the first of `base-2`,
/// `base-3`, ... (counting on from the last number used for this base) that
/// was not issued before. The issued id is reserved, so a later heading
/// that slugifies straight to it is pushed onto another suffix.
pub fn generate_anchor_id(text: &str, anchor_ids: &mut AnchorIds) -> (r: String)
    requires
        old(anchor_ids).fits(),
    ensures
        !old(anchor_ids)@.dom().contains(r@),
        final(anchor_ids)@.dom().contains(r@),
        final(anchor_ids).size() <= old(anchor_ids).size() + 2,
        forall|x: Seq<char>| old(anchor_ids)@.dom().contains(x) ==> #[trigger] final(anchor_ids)@.dom().contains(x),
        exists|k: nat|
            {
                &&& start_count(old(anchor_ids)@, anchor_base(text@)) < k
                &&& r@ == anchor_candidate(anchor_base(text@), k)
                &&& forall|j: nat|
                    start_count(old(anchor_ids)@, anchor_base(text@)) < j < k ==> old(anchor_ids)@.dom().contains(
                        #[trigger] anchor_candidate(anchor_base(text@), j),
                    )
                &&& final(anchor_ids)@ == after_issue(old(anchor_ids)@, anchor_base(text@), k, r@)
            },
{
    proof {
        use_type_invariant(&*anchor_ids);
    }
    let base = anchor_base_of(text);
    let start = match anchor_ids.get(&base) {
        Some(c) => c,
        None => 0,
    };
    assert(start == start_count(anchor_ids@, base@));
    let ghost ids = *anchor_ids;
    let mut count = start;
    let ghost mut tried: Seq<Seq<char>> = Seq::empty();
    let mut cand: Vec<char> = Vec::new();
    loop
        invariant_except_break
            count - start == tried.len(),
        invariant
            ids == *anchor_ids,
            ids.fits(),
            ids.keys().no_duplicates(),
            start == start_count(ids@, base@),
            start <= count,
            tried.len() <= ids.size(),
            count <= start + ids.size() + 1,
            tried.no_duplicates(),
            forall|i: int| 0 <= i < tried.len() ==> #[trigger] tried[i] == anchor_candidate(base@, (start + 1 + i) as nat),
            forall|i: int| 0 <= i < tried.len() ==> #[trigger] ids@.dom().contains(tried[i]),
        ensures
            count - start == tried.len() + 1,
            cand@ == anchor_candidate(base@, count as nat),
            !ids@.dom().contains(cand@),
        decreases ids.size() - tried.len(),
    {
        proof {
            if ids@.dom().contains(base@) {
                assert(ids@[base@] + ids.size() + 2 <= usize::MAX);
            }
        }
        count = count + 1;
        cand = candidate_of(&base, count);
        if !anchor_ids.contains(&cand) {
            break;
        }
        proof {
            let t2 = tried.push(cand@);
            assert forall|a: int, b: int| 0 <= a < t2.len() && 0 <= b < t2.len() && a != b implies t2[a] != t2[b] by {
                if a < tried.len() && b < tried.len() {
                } else {
                    let ka = (start + 1 + a) as nat;
                    let kb = (start + 1 + b) as nat;
                    assert(t2[a] == anchor_candidate(base@, ka));
                    assert(t2[b] == anchor_candidate(base@, kb));
                    if t2[a] == t2[b] {
                        lemma_candidate_injective(base@, ka, kb);
                    }
                }
            }
            tried = t2;
            ids.lemma_tried_bound(tried);
        }
    }
    let ghost k = count as nat;
    assert forall|j: nat| start < j < k implies ids@.dom().contains(#[trigger] anchor_candidate(base@, j)) by {
        assert(tried[j - start - 1] == anchor_candidate(base@, j));
    }
    anchor_ids.set(&base, count);
    if !anchor_ids.contains(&cand) {
        anchor_ids.set(&cand, 0);
    }
    let r = string_of(&cand);
    assert(anchor_ids@ == after_issue(ids@, base@, k, r@));
    r
}

/// Anchor ids issued one after another into the same document never
/// collide: whenever each id was unused before its call and recorded after
/// it, and no call forgets an id (what [`generate_anchor_id`] ensures), the
/// ids are pairwise distinct.
pub proof fn law_anchor_ids_never_collide(states: Seq<Map<Seq<char>, usize>>, ids: Seq<Seq<char>>)
    requires
        states.len() == ids.len() + 1,
        forall|i: int| 0 <= i < ids.len() ==> !(#[trigger] states[i]).dom().contains(ids[i]),
        forall|i: int| 0 <= i < ids.len() ==> (#[trigger] states[i + 1]).dom().contains(ids[i]),
        forall|i: int, x: Seq<char>|
            0 <= i < ids.len() && #[trigger] states[i].dom().contains(x) ==> states[i + 1].dom().contains(x),
    ensures
        ids.no_duplicates(),
{
    assert forall|a: int, b: int| 0 <= a < ids.len() && 0 <= b < ids.len() && a != b implies ids[a] != ids[b] by {
        let (lo, hi) = if a < b {
            (a, b)
        } else {
            (b, a)
        };
        lemma_recorded_later(states, ids, lo, hi);
    }
}

proof fn lemma_recorded_later(states: Seq<Map<Seq<char>, usize>>, ids: Seq<Seq<char>>, lo: int, hi: int)
    requires
        states.len() == ids.len() + 1,
        0 <= lo < hi <= ids.len(),
        forall|i: int| 0 <= i < ids.len() ==> (#[trigger] states[i + 1]).dom().contains(ids[i]),
        forall|i: int, x: Seq<char>|
            0 <= i < ids.len() && #[trigger] states[i].dom().contains(x) ==> states[i + 1].dom().contains(x),
    ensures
        states[hi].dom().contains(ids[lo]),
    decreases hi - lo,
{
    if hi == lo + 1 {
        assert(states[lo + 1].dom().contains(ids[lo]));
    } else {
        lemma_recorded_later(states, ids, lo, hi - 1);
        assert(states[hi - 1].dom().contains(ids[lo]));
    }
}

impl View for AnchorIds {
    type V = Map<Seq<char>, usize>;

    closed spec fn view(&self) -> Map<Seq<char>, usize> {
        Map::new(|k: Seq<char>| self.keys().contains(k), |k: Seq<char>| self.value_of(k))
    }
}

// ---------------------------------------------------------------------------
// Headings of a parsed page
// ---------------------------------------------------------------------------

/// Every base recorded with a number `n` has its suffixes `1..=n` issued.
pub open spec fn well_numbered(ids: Map<Seq<char>, usize>) -> bool {
    forall|b: Seq<char>, j: nat|
        ids.dom().contains(b) && 1 <= j <= ids[b] ==> ids.dom().contains(#[trigger] anchor_candidate(b, j))
}

/// The suffix number the next heading with base `base` gets: the first one
/// past the base's recorded number whose id is not taken.
pub open spec fn issued_number(ids: Map<Seq<char>, usize>, base: Seq<char>) -> nat {
    choose|k: nat|
        {
            &&& start_count(ids, base) < k
            &&& !ids.dom().contains(anchor_candidate(base, k))
            &&& forall|j: nat| start_count(ids, base) < j < k ==> ids.dom().contains(#[trigger] anchor_candidate(base, j))
        }
}

/// The ids recorded before call `k` of a run of [`generate_anchor_id`]
/// calls (`maps[k]`) and the id that call returned (`ids[k]`) are as the
/// function's contract gives them: the id was not issued before and is
/// issued after, and nothing issued is forgotten.
pub open spec fn anchor_run(maps: Seq<Map<Seq<char>, usize>>, ids: Seq<Seq<char>>) -> bool {
    &&& maps.len() == ids.len() + 1
    &&& forall|k: int| 0 <= k < ids.len() ==> !maps[k].dom().contains(#[trigger] ids[k])
    &&& forall|k: int| 0 <= k < ids.len() ==> maps[k + 1].dom().contains(#[trigger] ids[k])
    &&& forall|k: int, x: Seq<char>| 0 <= k < ids.len() && #[trigger] maps[k].dom().contains(x) ==> maps[k + 1].dom().contains(x)
}

proof fn lemma_anchor_run_keeps(maps: Seq<Map<Seq<char>, usize>>, ids: Seq<Seq<char>>, a: int, b: int, x: Seq<char>)
    requires
        anchor_run(maps, ids),
        0 <= a <= b <= ids.len(),
        maps[a].dom().contains(x),
    ensures
        maps[b].dom().contains(x),
    decreases b - a,
{
    if a < b {
        assert(maps[a + 1].dom().contains(x));
        lemma_anchor_run_keeps(maps, ids, a + 1, b, x);
    }
}

/// Anchor ids never collide across any run of calls on one set of ids:
/// each id differs from every other, and all of them stay issued.
pub proof fn law_anchor_ids_unique_across_calls(maps: Seq<Map<Seq<char>, usize>>, ids: Seq<Seq<char>>)
    requires
        anchor_run(maps, ids),
    ensures
        forall|i: int, j: int| 0 <= i < j < ids.len() ==> ids[i] != ids[j],
        forall|i: int| 0 <= i < ids.len() ==> maps[ids.len() as int].dom().contains(#[trigger] ids[i]),
{
    assert forall|i: int, j: int| 0 <= i < j < ids.len() implies ids[i] != ids[j] by {
        assert(maps[i + 1].dom().contains(ids[i]));
        lemma_anchor_run_keeps(maps, ids, i + 1, j, ids[i]);
        assert(!maps[j].dom().contains(ids[j]));
    }
    assert forall|i: int| 0 <= i < ids.len() implies maps[ids.len() as int].dom().contains(#[trigger] ids[i]) by {
        assert(maps[i + 1].dom().contains(ids[i]));
        lemma_anchor_run_keeps(maps, ids, i + 1, ids.len() as int, ids[i]);
    }
}

/// Issuing an id for a heading with text `text`: the ids afterwards and the
/// id issued.
#[verifier::opaque]
pub open spec fn issue(ids: Map<Seq<char>, usize>, text: Seq<char>) -> (Map<Seq<char>, usize>, Seq<char>) {
    let base = anchor_base(text);
    let k = issued_number(ids, base);
    let id = anchor_candidate(base, k);
    (after_issue(ids, base, k, id), id)
}

/// A heading as a value: level, text and anchor id.
pub open spec fn heading_view(h: HeadingInfo) -> (u8, Seq<char>, Seq<char>) {
    (h.level, h.text@, h.id@)
}

/// The values of a list of headings.
pub open spec fn heading_views(v: Seq<HeadingInfo>) -> Seq<(u8, Seq<char>, Seq<char>)> {
    v.map_values(|h: HeadingInfo| heading_view(h))
}

/// The headings from event `i` on: `open` holds the text gathered for a
/// heading that is open (plain text, code spans and inline math), `ids` the
/// anchor ids issued so far. Each heading gets its level from its end event
/// and the next free id for its text.
pub open spec fn headings_from(ev: Seq<MdEventView>, i: int, open: Option<Seq<char>>, ids: Map<Seq<char>, usize>) -> Seq<
    (u8, Seq<char>, Seq<char>),
>
    decreases ev.len() - i,
{
    if i < 0 || i >= ev.len() {
        Seq::empty()
    } else {
        match ev[i] {
            MdEventView::StartHeading(_) => headings_from(ev, i + 1, Some(Seq::empty()), ids),
            MdEventView::Text(t) => headings_from(ev, i + 1, gathered(open, t), ids),
            MdEventView::Code(t) => headings_from(ev, i + 1, gathered(open, t), ids),
            MdEventView::InlineMath(t) => headings_from(ev, i + 1, gathered(open, t), ids),
            MdEventView::EndHeading(l) => match open {
                Some(a) => seq![(l, a, issue(ids, a).1)] + headings_from(ev, i + 1, None, issue(ids, a).0),
                None => headings_from(ev, i + 1, None, ids),
            },
            _ => headings_from(ev, i + 1, open, ids),
        }
    }
}

/// Headings gathered from events with valid levels have levels 1 to 6.
pub proof fn lemma_heading_levels(ev: Seq<MdEventView>, i: int, open: Option<Seq<char>>, ids: Map<Seq<char>, usize>)
    requires
        heading_levels_valid(ev),
    ensures
        forall|k: int| 0 <= k < headings_from(ev, i, open, ids).len() ==> 1 <= #[trigger] headings_from(ev, i, open, ids)[k].0 <= 6,
    decreases ev.len() - i,
{
    let all = headings_from(ev, i, open, ids);
    if 0 <= i < ev.len() {
        let e = ev[i];
        match e {
            MdEventView::StartHeading(_) => {
                lemma_heading_levels(ev, i + 1, Some(Seq::empty()), ids);
                assert(all == headings_from(ev, i + 1, Some(Seq::empty()), ids));
            },
            MdEventView::Text(t) => {
                lemma_heading_levels(ev, i + 1, gathered(open, t), ids);
                assert(all == headings_from(ev, i + 1, gathered(open, t), ids));
            },
            MdEventView::Code(t) => {
                lemma_heading_levels(ev, i + 1, gathered(open, t), ids);
                assert(all == headings_from(ev, i + 1, gathered(open, t), ids));
            },
            MdEventView::InlineMath(t) => {
                lemma_heading_levels(ev, i + 1, gathered(open, t), ids);
                assert(all == headings_from(ev, i + 1, gathered(open, t), ids));
            },
            MdEventView::EndHeading(l) => {
                assert(1 <= l <= 6);
                match open {
                    Some(a) => {
                        lemma_heading_levels(ev, i + 1, None, issue(ids, a).0);
                        let rest = headings_from(ev, i + 1, None, issue(ids, a).0);
                        assert(all == seq![(l, a, issue(ids, a).1)] + rest);
                        assert forall|k: int| 0 <= k < all.len() implies 1 <= #[trigger] all[k].0 <= 6 by {
                            if k > 0 {
                                assert(all[k] == rest[k - 1]);
                            }
                        }
                    },
                    None => {
                        lemma_heading_levels(ev, i + 1, None, ids);
                        assert(all == headings_from(ev, i + 1, None, ids));
                    },
                }
            },
            _ => {
                lemma_heading_levels(ev, i + 1, open, ids);
                assert(all == headings_from(ev, i + 1, open, ids));
            },
        }
    } else {
        assert(all.len() == 0);
    }
}

/// An open heading's text with `t` added.
pub open spec fn gathered(open: Option<Seq<char>>, t: Seq<char>) -> Option<Seq<char>> {
    match open {
        Some(a) => Some(a + t),
        None => None,
    }
}

/// Issuing suffix `k` for `base` keeps every base's suffixes up to its
/// number issued.
proof fn lemma_issue_keeps_numbering(ids: Map<Seq<char>, usize>, base: Seq<char>, k: nat, id: Seq<char>)
    requires
        well_numbered(ids),
        start_count(ids, base) < k <= usize::MAX,
        id == anchor_candidate(base, k),
        forall|j: nat| start_count(ids, base) < j < k ==> ids.dom().contains(#[trigger] anchor_candidate(base, j)),
    ensures
        well_numbered(after_issue(ids, base, k, id)),
{
    let m2 = after_issue(ids, base, k, id);
    assert forall|b: Seq<char>, j: nat| m2.dom().contains(b) && 1 <= j <= m2[b] implies m2.dom().contains(
        #[trigger] anchor_candidate(b, j),
    ) by {
        if b == base {
            assert(m2[b] == k);
            if j <= start_count(ids, base) {
                assert(ids.dom().contains(anchor_candidate(b, j)));
            } else if j < k {
                assert(ids.dom().contains(anchor_candidate(base, j)));
            }
        } else if ids.dom().contains(b) {
            assert(m2[b] == ids[b]);
            assert(ids.dom().contains(anchor_candidate(b, j)));
        }
    }
}

/// The suffix number that satisfies [`issued_number`]'s condition is
/// the only one.
proof fn lemma_issued_number_unique(ids: Map<Seq<char>, usize>, base: Seq<char>, k: nat)
    requires
        start_count(ids, base) < k,
        !ids.dom().contains(anchor_candidate(base, k)),
        forall|j: nat| start_count(ids, base) < j < k ==> ids.dom().contains(#[trigger] anchor_candidate(base, j)),
    ensures
        issued_number(ids, base) == k,
{
    let c = issued_number(ids, base);
    assert(start_count(ids, base) < c && !ids.dom().contains(anchor_candidate(base, c)));
    if c < k {
        assert(ids.dom().contains(anchor_candidate(base, c)));
    } else if c > k {
        assert(ids.dom().contains(anchor_candidate(base, k)));
    }
}

impl AnchorIds {
    /// With every base's suffixes issued up to its number, no number
    /// exceeds the count of ids.
    proof fn lemma_numbers_bounded(self)
        requires
            self.keys().no_duplicates(),
            well_numbered(self@),
        ensures
            forall|b: Seq<char>| #[trigger] self@.dom().contains(b) ==> self@[b] <= self.size(),
    {
        assert forall|b: Seq<char>| #[trigger] self@.dom().contains(b) implies self@[b] <= self.size() by {
            let v = self@[b] as nat;
            let tried = Seq::new(v, |j: int| anchor_candidate(b, (j + 1) as nat));
            assert forall|x: int, y: int| 0 <= x < y < tried.len() implies tried[x] != tried[y] by {
                if tried[x] == tried[y] {
                    lemma_candidate_injective(b, (x + 1) as nat, (y + 1) as nat);
                }
            }
            assert forall|i: int| 0 <= i < tried.len() implies #[trigger] self@.dom().contains(tried[i]) by {
                assert(self@.dom().contains(anchor_candidate(b, (i + 1) as nat)));
            }
            self.lemma_tried_bound(tried);
        }
    }
}

/// What one call of [`generate_anchor_id`] does, as [`issue`] states it:
/// the id and the ids afterwards, and every base's suffixes still issued
/// up to its number.
#[verifier::spinoff_prover]
#[verifier::rlimit(40)]
proof fn lemma_issue_step(old_ids: AnchorIds, text: Seq<char>, id: Seq<char>, after: Map<Seq<char>, usize>)
    requires
        old_ids.keys().no_duplicates(),
        old_ids.fits(),
        well_numbered(old_ids@),
        exists|k: nat|
            {
                &&& start_count(old_ids@, anchor_base(text)) < k
                &&& id == anchor_candidate(anchor_base(text), k)
                &&& forall|j: nat|
                    start_count(old_ids@, anchor_base(text)) < j < k ==> old_ids@.dom().contains(
                        #[trigger] anchor_candidate(anchor_base(text), j),
                    )
                &&& after == after_issue(old_ids@, anchor_base(text), k, id)
            },
        !old_ids@.dom().contains(id),
    ensures
        issue(old_ids@, text) == (after, id),
        well_numbered(after),
{
    let before = old_ids@;
    let base = anchor_base(text);
    let k = choose|k: nat|
        {
            &&& start_count(before, base) < k
            &&& id == anchor_candidate(base, k)
            &&& forall|j: nat| start_count(before, base) < j < k ==> before.dom().contains(#[trigger] anchor_candidate(base, j))
            &&& after == after_issue(before, base, k, id)
        };
    lemma_issued_number_unique(before, base, k);
    reveal(issue);
    assert(k <= usize::MAX) by {
        let st = start_count(before, base);
        let tried = Seq::new((k - st - 1) as nat, |j: int| anchor_candidate(base, (st + 1 + j) as nat));
        assert forall|x: int, y: int| 0 <= x < y < tried.len() implies tried[x] != tried[y] by {
            if tried[x] == tried[y] {
                lemma_candidate_injective(base, (st + 1 + x) as nat, (st + 1 + y) as nat);
            }
        }
        assert forall|x: int| 0 <= x < tried.len() implies #[trigger] old_ids@.dom().contains(tried[x]) by {
            assert(before.dom().contains(anchor_candidate(base, (st + 1 + x) as nat)));
        }
        old_ids.lemma_tried_bound(tried);
    }
    lemma_issue_keeps_numbering(before, base, k, id);
}

/// Appends the heading with level `level` and text `text` to `headings`,
/// issuing its anchor id.
fn push_heading(headings: &mut Vec<HeadingInfo>, anchor_ids: &mut AnchorIds, level: u8, text: &Vec<char>)
    requires
        2 * old(anchor_ids).size() + 2 <= usize::MAX,
        well_numbered(old(anchor_ids)@),
        forall|x: int| 0 <= x < old(headings)@.len() ==> old(anchor_ids)@.dom().contains(#[trigger] old(headings)@[x].id@),
        forall|x: int, y: int| 0 <= x < y < old(headings)@.len() ==> old(headings)@[x].id@ != old(headings)@[y].id@,
    ensures
        final(anchor_ids)@ == issue(old(anchor_ids)@, text@).0,
        heading_views(final(headings)@) == heading_views(old(headings)@).push(
            (level, text@, issue(old(anchor_ids)@, text@).1),
        ),
        final(anchor_ids).size() <= old(anchor_ids).size() + 2,
        well_numbered(final(anchor_ids)@),
        forall|x: int| 0 <= x < final(headings)@.len() ==> final(anchor_ids)@.dom().contains(#[trigger] final(headings)@[x].id@),
        forall|x: int, y: int| 0 <= x < y < final(headings)@.len() ==> final(headings)@[x].id@ != final(headings)@[y].id@,
{
    let t = string_of(text);
    proof {
        use_type_invariant(&*anchor_ids);
        anchor_ids.lemma_numbers_bounded();
    }
    let ghost old_ids = *anchor_ids;
    let ghost old_headings = headings@;
    let id = generate_anchor_id(t.as_str(), anchor_ids);
    proof {
        lemma_issue_step(old_ids, text@, id@, anchor_ids@);
    }
    headings.push(HeadingInfo { level, text: t, id });
    assert(heading_views(headings@) =~= heading_views(old_headings).push((level, text@, id@)));
}

/// The headings of a page's events, each with an anchor id unique in the
/// page (see [`generate_anchor_id`]): the page's table of contents. The
/// events are bounded by a quarter of the address space, which no list in
/// memory reaches.
pub fn collect_headings(events: &[MdEvent]) -> (r: Vec<HeadingInfo>)
    requires
        4 * events@.len() + 2 <= usize::MAX,
    ensures
        heading_views(r@) == headings_from(event_views(events@), 0, None, Map::empty()),
        forall|x: int, y: int| 0 <= x < y < r@.len() ==> r@[x].id@ != r@[y].id@,
        heading_levels_valid(event_views(events@)) ==> forall|k: int| 0 <= k < r@.len() ==> 1 <= #[trigger] r@[k].level <= 6,
{
    let ghost ev = event_views(events@);
    let mut anchor_ids = AnchorIds::new();
    let mut headings: Vec<HeadingInfo> = Vec::new();
    let mut in_heading = false;
    let mut acc: Vec<char> = Vec::new();
    let mut i: usize = 0;
    while i < events.len()
        invariant
            ev == event_views(events@),
            4 * events@.len() + 2 <= usize::MAX,
            i <= events@.len(),
            anchor_ids.size() <= 2 * i,
            well_numbered(anchor_ids@),
            headings_from(ev, 0, None, Map::empty()) == heading_views(headings@) + headings_from(
                ev,
                i as int,
                if in_heading { Some(acc@) } else { None },
                anchor_ids@,
            ),
            forall|x: int| 0 <= x < headings@.len() ==> anchor_ids@.dom().contains(#[trigger] headings@[x].id@),
            forall|x: int, y: int| 0 <= x < y < headings@.len() ==> headings@[x].id@ != headings@[y].id@,
        decreases events@.len() - i,
    {
        assert(ev[i as int] == events@[i as int]@);
        let ghost before = heading_views(headings@);
        let ghost open0: Option<Seq<char>> = if in_heading { Some(acc@) } else { None };
        let ghost ids0 = anchor_ids@;
        match &events[i] {
            MdEvent::StartHeading(_) => {
                in_heading = true;
                acc = Vec::new();
                assert(headings_from(ev, i as int, open0, ids0) == headings_from(ev, i + 1, Some(Seq::<char>::empty()), ids0));
            },
            MdEvent::Text(t) | MdEvent::Code(t) | MdEvent::InlineMath(t) => {
                if in_heading {
                    let c = chars_of(t.as_str());
                    push_all(&mut acc, &c);
                }
                assert(headings_from(ev, i as int, open0, ids0) == headings_from(ev, i + 1, gathered(open0, t@), ids0));
            },
            MdEvent::EndHeading(l) => {
                if in_heading {
                    push_heading(&mut headings, &mut anchor_ids, *l, &acc);
                    assert(heading_views(headings@) + headings_from(ev, i + 1, None, anchor_ids@) =~= before
                        + headings_from(ev, i as int, Some(acc@), ids0));
                    in_heading = false;
                } else {
                    assert(headings_from(ev, i as int, open0, ids0) == headings_from(ev, i + 1, None, ids0));
                }
            },
            _ => {
                assert(headings_from(ev, i as int, open0, ids0) == headings_from(ev, i + 1, open0, ids0));
            },
        }
        i += 1;
    }
    assert(heading_views(headings@) + headings_from(ev, i as int, if in_heading { Some(acc@) } else { None }, anchor_ids@)
        =~= heading_views(headings@));
    assert(heading_views(headings@) == headings_from(ev, 0, None, Map::empty()));
    proof {
        if heading_levels_valid(ev) {
            lemma_heading_levels(ev, 0, None, Map::empty());
            assert forall|k: int| 0 <= k < headings@.len() implies 1 <= #[trigger] headings@[k].level <= 6 by {
                assert(heading_views(headings@)[k] == heading_view(headings@[k]));
                assert(heading_views(headings@)[k] == headings_from(ev, 0, None, Map::empty())[k]);
                assert(heading_views(headings@)[k].0 == headings@[k].level);
                assert(1 <= headings_from(ev, 0, None, Map::empty())[k].0 <= 6);
            }
        }
    }
    headings
}

} // verus!
