//! Per-page error detection for server/GUI mode.
//!
//! Validates the problems a reader might care about for a single rendered
//! page: broken internal links, broken media references, unresolved
//! `[[...]]` wikilinks, frontmatter parse errors, relationship cycles and
//! ambiguous relationship endpoints or wikilinks.
//!
//! Resolving a path against the repository is the server's job and touches
//! the file system, so every validator here takes the resolver as a
//! function from a request URL to a [`ResolvedPath`]; the checks never
//! re-derive what the server would serve, so they cannot disagree with it.

use vstd::prelude::*;
use crate::link_index::{opt_view, vec_views, lemma_vec_views_push, resolve_relative_url, resolve_relative_url_checked, split_url_anchor, url_anchor_split, resolved_url, resolved_url_checked, OutboundLink};
use crate::link_transform::{split_url_parts, url_parts};
use crate::text::{chars_eq, chars_of, clone_strings, copy_range, ends_with, has_suffix, string_of, views_of};
use crate::link_transform::{is_unicode_whitespace, is_unicode_whitespace_exec};
use crate::url_path::{is_external, is_external_url};
use crate::oembed::byte_len;
use crate::regex_text::{name_views, piece_views, regex_pieces, regex_split, splice, spliced, views_of_vecs, PieceView};

verus! {

#[verifier::external_type_specification]
#[verifier::external_body]
pub struct ExPathBuf(std::path::PathBuf);

/// Type of media element whose `src` attribute is broken.
#[derive(Debug, Clone, Copy, PartialEq, Eq, Structural)]
pub enum MediaKind {
    Image,
    Video,
    Audio,
    Source,
}

/// What the server would serve for a request path.
#[derive(Debug)]
pub enum ResolvedPath {
    /// Nothing: a live request would get a 404.
    NotFound,
    /// A markdown page, rendered at a directory-style URL.
    MarkdownFile(std::path::PathBuf),
    /// A file served as is.
    StaticFile(std::path::PathBuf),
    /// A generated listing of a directory.
    DirectoryListing(std::path::PathBuf),
    /// A page listing the notes with one tag value.
    TagPage,
    /// The index of all values of one tag source.
    TagSourceIndex,
    /// A redirect to the canonical URL.
    Redirect(String),
}

/// A hierarchical relationship cycle among notes.
#[derive(Debug, Clone)]
pub struct RelationshipCycle {
    /// Note URLs in the cycle, in traversal order.
    pub members: Vec<String>,
    /// Canonical relation type whose edges close the cycle (e.g. "child").
    pub rel_type: String,
}

/// A relationship endpoint that named a title or alias shared by several
/// notes.
#[derive(Debug, Clone)]
pub struct AmbiguousEndpoint {
    /// The endpoint as authored, e.g. "[[John Doe]]".
    pub raw: String,
    /// The note URL it resolved to.
    pub resolved_to: String,
    /// The other notes sharing that name.
    pub candidates: Vec<String>,
}

/// A body wikilink that named a title or stem shared by several notes.
#[derive(Debug, Clone)]
pub struct AmbiguousWikilink {
    /// The wikilink as authored, e.g. "[[John Doe]]".
    pub raw: String,
    /// The note URL it resolved to.
    pub resolved_to: String,
    /// The other notes sharing that name.
    pub candidates: Vec<String>,
}

/// A single problem detected on a page.
#[derive(Debug, Clone, PartialEq, Eq)]
pub enum PageError {
    /// A `<a href>` whose internal target does not resolve.
    BrokenInternalLink { target: String, text: String, anchor: Option<String> },
    /// A media element (`<img>`, `<video>`, `<audio>`, `<source>`) whose
    /// internal `src` does not resolve.
    BrokenMediaReference { src: String, kind: MediaKind },
    /// A literal `[[...]]` that was not transformed into a link.
    UnresolvedWikilink { raw: String },
    /// The YAML frontmatter block failed to parse, so the entire frontmatter
    /// (including otherwise-valid fields) was discarded.
    FrontmatterParseError { message: String },
    /// Two or more notes form a parent/child cycle.
    RelationshipCycle {
        /// Note URLs in the cycle, in traversal order.
        members: Vec<String>,
        /// Canonical relation type whose edges close the cycle.
        rel_type: String,
    },
    /// A relationship endpoint named a title/alias shared by several notes,
    /// and was silently resolved to one of them.
    AmbiguousRelationshipEndpoint { raw: String, resolved_to: String, candidates: Vec<String> },
    /// A `[[Wikilink]]` in the body named a title/stem shared by several
    /// notes, and was silently resolved to one of them.
    AmbiguousWikilink { raw: String, resolved_to: String, candidates: Vec<String> },
    /// A media file that is served correctly, but whose track layout matches
    /// a combination implicated in browser decode failures. A heuristic hint,
    /// not a verdict.
    UnplayableMedia {
        /// The element's `src` without `#fragment` or `?query`.
        src: String,
        kind: MediaKind,
        /// Human-readable explanation of the most likely cause.
        reason: String,
        /// Command that resolves the conflict, when one exists.
        remedy: Option<String>,
        /// Always `true`: marks this entry as a heuristic hint.
        advisory: bool,
    },
}

/// The value of a [`PageError`], with every string as its characters.
pub enum PageErrorView {
    BrokenInternalLink { target: Seq<char>, text: Seq<char>, anchor: Option<Seq<char>> },
    BrokenMediaReference { src: Seq<char>, kind: MediaKind },
    UnresolvedWikilink { raw: Seq<char> },
    FrontmatterParseError { message: Seq<char> },
    RelationshipCycle { members: Seq<Seq<char>>, rel_type: Seq<char> },
    AmbiguousRelationshipEndpoint {
        raw: Seq<char>,
        resolved_to: Seq<char>,
        candidates: Seq<Seq<char>>,
    },
    AmbiguousWikilink { raw: Seq<char>, resolved_to: Seq<char>, candidates: Seq<Seq<char>> },
    UnplayableMedia {
        src: Seq<char>,
        kind: MediaKind,
        reason: Seq<char>,
        remedy: Option<Seq<char>>,
        advisory: bool,
    },
}

impl View for PageError {
    type V = PageErrorView;

    open spec fn view(&self) -> PageErrorView {
        match self {
            PageError::BrokenInternalLink { target, text, anchor } => PageErrorView::BrokenInternalLink {
                target: target@,
                text: text@,
                anchor: opt_view(*anchor),
            },
            PageError::BrokenMediaReference { src, kind } => PageErrorView::BrokenMediaReference {
                src: src@,
                kind: *kind,
            },
            PageError::UnresolvedWikilink { raw } => PageErrorView::UnresolvedWikilink { raw: raw@ },
            PageError::FrontmatterParseError { message } => PageErrorView::FrontmatterParseError {
                message: message@,
            },
            PageError::RelationshipCycle { members, rel_type } => PageErrorView::RelationshipCycle {
                members: views_of(members@),
                rel_type: rel_type@,
            },
            PageError::AmbiguousRelationshipEndpoint {
                raw,
                resolved_to,
                candidates,
            } => PageErrorView::AmbiguousRelationshipEndpoint {
                raw: raw@,
                resolved_to: resolved_to@,
                candidates: views_of(candidates@),
            },
            PageError::AmbiguousWikilink {
                raw,
                resolved_to,
                candidates,
            } => PageErrorView::AmbiguousWikilink {
                raw: raw@,
                resolved_to: resolved_to@,
                candidates: views_of(candidates@),
            },
            PageError::UnplayableMedia {
                src,
                kind,
                reason,
                remedy,
                advisory,
            } => PageErrorView::UnplayableMedia {
                src: src@,
                kind: *kind,
                reason: reason@,
                remedy: opt_view(*remedy),
                advisory: *advisory,
            },
        }
    }
}

/// The views of a list of page errors.
pub open spec fn error_views(v: Seq<PageError>) -> Seq<PageErrorView> {
    v.map_values(|e: PageError| e@)
}

/// A media reference in the rendered HTML that resolves to a real file.
#[derive(Debug)]
pub struct MediaReference {
    /// The element's `src` with `#fragment` / `?query` stripped.
    pub src: String,
    /// Which element carried the reference.
    pub kind: MediaKind,
    /// The file the server would actually serve for this `src`.
    pub path: std::path::PathBuf,
}

/// Response payload for `GET /{page}/errors.json`.
#[derive(Debug, Clone)]
pub struct PageErrors {
    /// Canonical URL of the page (e.g., `/docs/guide/`).
    pub page_url: String,
    /// Ordered list of detected problems.
    pub errors: Vec<PageError>,
}

impl Default for PageErrors {
    fn default() -> (r: Self)
        ensures
            r.page_url@.len() == 0,
            r.errors@.len() == 0,
    {
        PageErrors { page_url: String::new(), errors: Vec::new() }
    }
}

// ---------------------------------------------------------------------------
// Errors handed over by other stages
// ---------------------------------------------------------------------------

/// Wraps a captured YAML frontmatter parse error into the page-error list:
/// one entry with the message verbatim, or none when there was no error.
pub fn frontmatter_parse_errors(err: &Option<String>) -> (r: Vec<PageError>)
    ensures
        error_views(r@) == match err {
            Some(m) => seq![PageErrorView::FrontmatterParseError { message: m@ }],
            None => Seq::<PageErrorView>::empty(),
        },
{
    let mut r: Vec<PageError> = Vec::new();
    match err {
        Some(m) => {
            r.push(PageError::FrontmatterParseError { message: m.clone() });
        },
        None => {},
    }
    assert(error_views(r@) =~= match err {
        Some(m) => seq![PageErrorView::FrontmatterParseError { message: m@ }],
        None => Seq::<PageErrorView>::empty(),
    });
    r
}

/// The error reported for one relationship cycle.
pub open spec fn cycle_error(c: RelationshipCycle) -> PageErrorView {
    PageErrorView::RelationshipCycle { members: views_of(c.members@), rel_type: c.rel_type@ }
}

/// Wraps the relationship cycles a page is a member of into the page-error
/// list, one entry per cycle, in order.
pub fn relationship_cycle_errors(cycles: &[RelationshipCycle]) -> (r: Vec<PageError>)
    ensures
        error_views(r@) == cycles@.map_values(|c: RelationshipCycle| cycle_error(c)),
{
    let mut r: Vec<PageError> = Vec::new();
    let mut i: usize = 0;
    while i < cycles.len()
        invariant
            i <= cycles@.len(),
            r@.len() == i,
            forall|j: int| 0 <= j < i ==> r@[j]@ == cycle_error(cycles@[j]),
        decreases cycles@.len() - i,
    {
        let c = &cycles[i];
        r.push(PageError::RelationshipCycle { members: clone_strings(&c.members), rel_type: c.rel_type.clone() });
        i += 1;
    }
    assert(error_views(r@) =~= cycles@.map_values(|c: RelationshipCycle| cycle_error(c)));
    r
}

/// The error reported for one ambiguous relationship endpoint.
pub open spec fn endpoint_error(e: AmbiguousEndpoint) -> PageErrorView {
    PageErrorView::AmbiguousRelationshipEndpoint {
        raw: e.raw@,
        resolved_to: e.resolved_to@,
        candidates: views_of(e.candidates@),
    }
}

/// Wraps the ambiguous relationship endpoints a page declared into the
/// page-error list, one entry per endpoint with every candidate kept.
pub fn ambiguous_relationship_endpoint_errors(endpoints: &[AmbiguousEndpoint]) -> (r: Vec<PageError>)
    ensures
        error_views(r@) == endpoints@.map_values(|e: AmbiguousEndpoint| endpoint_error(e)),
{
    let mut r: Vec<PageError> = Vec::new();
    let mut i: usize = 0;
    while i < endpoints.len()
        invariant
            i <= endpoints@.len(),
            r@.len() == i,
            forall|j: int| 0 <= j < i ==> r@[j]@ == endpoint_error(endpoints@[j]),
        decreases endpoints@.len() - i,
    {
        let e = &endpoints[i];
        r.push(
            PageError::AmbiguousRelationshipEndpoint {
                raw: e.raw.clone(),
                resolved_to: e.resolved_to.clone(),
                candidates: clone_strings(&e.candidates),
            },
        );
        i += 1;
    }
    assert(error_views(r@) =~= endpoints@.map_values(|e: AmbiguousEndpoint| endpoint_error(e)));
    r
}

/// The error reported for one ambiguous body wikilink.
pub open spec fn wikilink_error(w: AmbiguousWikilink) -> PageErrorView {
    PageErrorView::AmbiguousWikilink {
        raw: w.raw@,
        resolved_to: w.resolved_to@,
        candidates: views_of(w.candidates@),
    }
}

/// Wraps the ambiguous body wikilinks found while rendering a page into the
/// page-error list, one entry per wikilink with every candidate kept.
pub fn ambiguous_wikilink_errors(wikilinks: &[AmbiguousWikilink]) -> (r: Vec<PageError>)
    ensures
        error_views(r@) == wikilinks@.map_values(|w: AmbiguousWikilink| wikilink_error(w)),
{
    let mut r: Vec<PageError> = Vec::new();
    let mut i: usize = 0;
    while i < wikilinks.len()
        invariant
            i <= wikilinks@.len(),
            r@.len() == i,
            forall|j: int| 0 <= j < i ==> r@[j]@ == wikilink_error(wikilinks@[j]),
        decreases wikilinks@.len() - i,
    {
        let w = &wikilinks[i];
        r.push(
            PageError::AmbiguousWikilink {
                raw: w.raw.clone(),
                resolved_to: w.resolved_to.clone(),
                candidates: clone_strings(&w.candidates),
            },
        );
        i += 1;
    }
    assert(error_views(r@) =~= wikilinks@.map_values(|w: AmbiguousWikilink| wikilink_error(w)));
    r
}

// ---------------------------------------------------------------------------
// Links
// ---------------------------------------------------------------------------

/// What is wrong with one link, as judged from the href a browser would
/// actually follow. All three surface as [`PageError::BrokenInternalLink`].
#[derive(Debug, Clone, Copy, PartialEq, Eq, Structural)]
pub enum LinkDefect {
    /// The target does not resolve to anything the server would serve.
    Missing,
    /// A `..` climbed above the repository root; browsers clamp this, so the
    /// reader silently lands on an unrelated page.
    EscapesRoot,
    /// The target is a markdown page, but the href does not end in `/`, so
    /// the target page's own relative links resolve one directory too high.
    NonCanonical,
}

/// What judging an emitted href needs: nothing (it is skipped), nothing
/// more (it escapes the root), or the resolver's answer for an absolute URL.
pub enum HrefCheck {
    Skip,
    EscapesRoot,
    /// Ask the resolver about `request_url`; `path_part` is the href before
    /// any `#` or `?`.
    Resolve { request_url: Seq<char>, path_part: Seq<char> },
}

/// How an emitted href on the page at `page_url` is judged. Empty and
/// fragment-only hrefs, external URLs and query-only hrefs are skipped; the
/// rest is resolved against the page's directory-style URL, with a `..`
/// above the root reported rather than clamped.
pub open spec fn href_check(href: Seq<char>, page_url: Seq<char>) -> HrefCheck {
    if href.len() == 0 || href[0] == '#' || is_external(href) {
        HrefCheck::Skip
    } else {
        let path_part = url_parts(href).0;
        if path_part.len() == 0 {
            HrefCheck::Skip
        } else {
            match resolved_url_checked(page_url, path_part, true) {
                None => HrefCheck::EscapesRoot,
                Some(abs) => HrefCheck::Resolve { request_url: abs, path_part },
            }
        }
    }
}

/// The defect of a resolved href: a 404 is missing; a markdown page must be
/// addressed with its trailing slash; anything else the server serves is
/// canonical however it was written.
pub open spec fn defect_for(outcome: ResolvedPath, path_part: Seq<char>) -> Option<LinkDefect> {
    match outcome {
        ResolvedPath::NotFound => Some(LinkDefect::Missing),
        ResolvedPath::MarkdownFile(_) => if ends_with(path_part, seq!['/']) {
            None
        } else {
            Some(LinkDefect::NonCanonical)
        },
        _ => None,
    }
}

/// `d` is a verdict [`classify_emitted_href`] can give for `href` when
/// `resolve` answers as its contract allows.
pub open spec fn defect_possible<F: Fn(&str) -> ResolvedPath>(
    href: Seq<char>,
    page_url: Seq<char>,
    resolve: F,
    d: Option<LinkDefect>,
) -> bool {
    match href_check(href, page_url) {
        HrefCheck::Skip => d is None,
        HrefCheck::EscapesRoot => d == Some(LinkDefect::EscapesRoot),
        HrefCheck::Resolve { request_url, path_part } => exists|s: &str, o: ResolvedPath|
            s@ == request_url && #[trigger] call_ensures(resolve, (s,), o) && d == defect_for(
                o,
                path_part,
            ),
    }
}

/// The resolver's answer for `href`, judged: like [`classify_emitted_href`]
/// with the question already answered by `outcome`.
pub fn defect_of(outcome: &ResolvedPath, path_part: &[char]) -> (r: Option<LinkDefect>)
    ensures
        r == defect_for(*outcome, path_part@),
{
    match outcome {
        ResolvedPath::NotFound => Some(LinkDefect::Missing),
        ResolvedPath::MarkdownFile(_) => {
            let slash = ['/'];
            if has_suffix(path_part, &slash) {
                assert(slash@ =~= seq!['/']);
                None
            } else {
                assert(slash@ =~= seq!['/']);
                Some(LinkDefect::NonCanonical)
            }
        },
        _ => None,
    }
}

/// Judges one already-emitted href exactly as a browser would, on the page
/// whose canonical directory-style URL is `page_url`. `resolve` is the
/// server's pipeline: it is asked what a request for an absolute site URL
/// would serve, and is only asked when the href is internal, has a path, and
/// stays inside the repository.
pub fn classify_emitted_href<F: Fn(&str) -> ResolvedPath>(href: &str, page_url: &str, resolve: &F) -> (r:
    Option<LinkDefect>)
    requires
        forall|s: &str| #[trigger] call_requires(*resolve, (s,)),
    ensures
        defect_possible(href@, page_url@, *resolve, r),
{
    let h = chars_of(href);
    if h.len() == 0 || h[0] == '#' {
        return None;
    }
    if is_external_url(href) {
        return None;
    }
    let (path_part, _) = split_url_parts(&h);
    if path_part.len() == 0 {
        return None;
    }
    let pp = string_of(&path_part);
    match resolve_relative_url_checked(page_url, pp.as_str(), true) {
        None => Some(LinkDefect::EscapesRoot),
        Some(abs) => {
            let a: &str = abs.as_str();
            let outcome = resolve(a);
            let r = defect_of(&outcome, &path_part);
            assert(call_ensures(*resolve, (a,), outcome));
            r
        },
    }
}

/// Whether a verdict is reported for an already-resolved outbound link:
/// only genuine 404s and above-root climbs.
pub open spec fn reported_defect(d: Option<LinkDefect>) -> bool {
    d == Some(LinkDefect::Missing) || d == Some(LinkDefect::EscapesRoot)
}

/// The error reported for an outbound link.
pub open spec fn outbound_error(l: OutboundLink) -> PageErrorView {
    PageErrorView::BrokenInternalLink { target: l.to@, text: l.text@, anchor: opt_view(l.anchor) }
}

/// The errors for `links` given the verdict `ds[i]` on each internal one:
/// each internal link with a reported verdict, in order.
pub open spec fn outbound_errors(links: Seq<OutboundLink>, ds: Seq<Option<LinkDefect>>) -> Seq<
    PageErrorView,
>
    decreases links.len(),
{
    if links.len() == 0 {
        Seq::empty()
    } else {
        let rest = outbound_errors(links.drop_last(), ds);
        let l = links.last();
        if l.internal && reported_defect(ds[links.len() - 1]) {
            rest.push(outbound_error(l))
        } else {
            rest
        }
    }
}

proof fn lemma_outbound_errors_prefix(links: Seq<OutboundLink>, ds: Seq<Option<LinkDefect>>, ds2: Seq<Option<LinkDefect>>)
    requires
        ds.len() >= links.len(),
        ds2.len() >= links.len(),
        forall|i: int| 0 <= i < links.len() ==> ds[i] == ds2[i],
    ensures
        outbound_errors(links, ds) == outbound_errors(links, ds2),
    decreases links.len(),
{
    if links.len() > 0 {
        lemma_outbound_errors_prefix(links.drop_last(), ds, ds2);
    }
}

/// Validates the internal outbound links of a page whose links are already
/// absolute site URLs (tag pages and tag indexes): each is judged against
/// the site root, and only genuine 404s and above-root climbs are reported.
/// Links not marked internal are not judged.
pub fn validate_internal_links<F: Fn(&str) -> ResolvedPath>(outbound: &[OutboundLink], resolve: &F) -> (r:
    Vec<PageError>)
    requires
        forall|s: &str| #[trigger] call_requires(*resolve, (s,)),
    ensures
        exists|ds: Seq<Option<LinkDefect>>|
            {
                &&& ds.len() == outbound@.len()
                &&& forall|i: int|
                    0 <= i < outbound@.len() && outbound@[i].internal ==> defect_possible(
                        outbound@[i].to@,
                        seq!['/'],
                        *resolve,
                        #[trigger] ds[i],
                    )
                &&& error_views(r@) == outbound_errors(outbound@, ds)
            },
{
    let mut r: Vec<PageError> = Vec::new();
    let ghost mut ds: Seq<Option<LinkDefect>> = Seq::empty();
    let root = "/";
    proof {
        reveal_strlit("/");
    }
    let mut i: usize = 0;
    while i < outbound.len()
        invariant
            forall|s: &str| #[trigger] call_requires(*resolve, (s,)),
            root@ == seq!['/'],
            i <= outbound@.len(),
            ds.len() == i,
            forall|j: int|
                0 <= j < i && outbound@[j].internal ==> defect_possible(
                    outbound@[j].to@,
                    seq!['/'],
                    *resolve,
                    #[trigger] ds[j],
                ),
            error_views(r@) == outbound_errors(outbound@.take(i as int), ds),
        decreases outbound@.len() - i,
    {
        let l = &outbound[i];
        let ghost old_ds = ds;
        let ghost old_r = r@;
        let mut d: Option<LinkDefect> = None;
        if l.internal {
            d = classify_emitted_href(l.to.as_str(), root, resolve);
        }
        proof {
            ds = ds.push(d);
            assert(outbound@.take(i + 1).drop_last() =~= outbound@.take(i as int));
            lemma_outbound_errors_prefix(outbound@.take(i as int), old_ds, ds);
        }
        let report = match d {
            Some(LinkDefect::Missing) => true,
            Some(LinkDefect::EscapesRoot) => true,
            _ => false,
        };
        if l.internal && report {
            let anchor = match &l.anchor {
                Some(a) => Some(a.clone()),
                None => None,
            };
            r.push(PageError::BrokenInternalLink { target: l.to.clone(), text: l.text.clone(), anchor });
            assert(error_views(r@) =~= error_views(old_r).push(outbound_error(outbound@[i as int])));
        }
        i += 1;
    }
    assert(outbound@.take(i as int) =~= outbound@);
    r
}

// ---------------------------------------------------------------------------
// Rendered HTML
// ---------------------------------------------------------------------------

/// The elements of the HTML document `html` that match the CSS selector
/// `selector`, in document order: each one's `attr` attribute, if it has
/// one, and its text content.
pub uninterp spec fn selected_elements(html: Seq<char>, selector: Seq<char>, attr: Seq<char>) -> Seq<
    (Option<Seq<char>>, Seq<char>),
>;

/// The views of a list of selected elements.
pub open spec fn element_views(v: Seq<(Option<String>, String)>) -> Seq<(Option<Seq<char>>, Seq<char>)> {
    v.map_values(|e: (Option<String>, String)| (opt_view(e.0), e.1@))
}

/// Parses `html` as a document (`scraper::Html::parse_document`) and walks
/// the elements matching `selector` (`scraper::Selector::parse`,
/// `Html::select`), taking each one's attribute `attr` and its text. The
/// contract only says that the result is a function of the three arguments;
/// what HTML parsing and selector matching do is left to the crate.
#[verifier::external_body]
pub(crate) fn select_elements(html: &str, selector: &str, attr: &str) -> (r: Vec<(Option<String>, String)>)
    ensures
        element_views(r@) == selected_elements(html@, selector@, attr@),
{
    let mut out = Vec::new();
    if let Ok(sel) = scraper::Selector::parse(selector) {
        let doc = scraper::Html::parse_document(html);
        for el in doc.select(&sel) {
            out.push((el.value().attr(attr).map(|v| v.to_string()), el.text().collect::<String>()));
        }
    }
    out
}

/// `s` without leading whitespace.
pub open spec fn trim_ws_start(s: Seq<char>) -> Seq<char>
    decreases s.len(),
{
    if s.len() > 0 && is_unicode_whitespace(s[0]) {
        trim_ws_start(s.drop_first())
    } else {
        s
    }
}

/// `s` without trailing whitespace.
pub open spec fn trim_ws_end(s: Seq<char>) -> Seq<char>
    decreases s.len(),
{
    if s.len() > 0 && is_unicode_whitespace(s.last()) {
        trim_ws_end(s.drop_last())
    } else {
        s
    }
}

/// `str::trim`: `s` without leading or trailing whitespace.
pub open spec fn trim_ws(s: Seq<char>) -> Seq<char> {
    trim_ws_end(trim_ws_start(s))
}

/// `v` without leading and trailing white space.
pub(crate) fn trim_chars(v: &[char]) -> (r: Vec<char>)
    ensures
        r@ == trim_ws(v@),
{
    let mut a: usize = 0;
    assert(v@.skip(0) =~= v@);
    while a < v.len() && is_unicode_whitespace_exec(v[a])
        invariant
            a <= v@.len(),
            trim_ws_start(v@) == trim_ws_start(v@.skip(a as int)),
        decreases v@.len() - a,
    {
        assert(v@.skip(a as int).drop_first() =~= v@.skip(a + 1));
        a += 1;
    }
    let ghost w = v@.skip(a as int);
    assert(trim_ws_start(v@) == w);
    let mut b: usize = v.len();
    while b > a && is_unicode_whitespace_exec(v[b - 1])
        invariant
            a <= b <= v@.len(),
            w == v@.skip(a as int),
            trim_ws_end(w) == trim_ws_end(v@.subrange(a as int, b as int)),
        decreases b,
    {
        assert(v@.subrange(a as int, b as int).drop_last() =~= v@.subrange(a as int, b - 1));
        b -= 1;
    }
    assert(w =~= v@.subrange(a as int, v@.len() as int));
    copy_range(v, a, b)
}

/// The link errors of a rendered page, given its anchors (`href` attribute
/// and text of each `<a href>` element, in document order) and the
/// verdict `ds[i]` on each: every anchor whose href was not seen earlier on
/// the page and whose verdict is a defect, reported with the trimmed text
/// and the href's anchor.
pub open spec fn anchor_errors(anchors: Seq<(Option<Seq<char>>, Seq<char>)>, ds: Seq<Option<LinkDefect>>) -> Seq<
    PageErrorView,
>
    decreases anchors.len(),
{
    if anchors.len() == 0 {
        Seq::empty()
    } else {
        let rest = anchors.drop_last();
        let prev = anchor_errors(rest, ds);
        let a = anchors.last();
        match a.0 {
            Some(href) => if first_href(anchors, anchors.len() - 1) && ds[anchors.len() - 1] is Some {
                prev.push(
                    PageErrorView::BrokenInternalLink {
                        target: href,
                        text: trim_ws(a.1),
                        anchor: url_anchor_split(href).1,
                    },
                )
            } else {
                prev
            },
            None => prev,
        }
    }
}

/// The href of anchor `i` occurs on no earlier anchor.
pub open spec fn first_href(anchors: Seq<(Option<Seq<char>>, Seq<char>)>, i: int) -> bool {
    forall|j: int| 0 <= j < i ==> #[trigger] anchors[j].0 != anchors[i].0
}

proof fn lemma_anchor_errors_ext(
    anchors: Seq<(Option<Seq<char>>, Seq<char>)>,
    n: int,
    ds: Seq<Option<LinkDefect>>,
    ds2: Seq<Option<LinkDefect>>,
)
    requires
        0 <= n <= anchors.len(),
        ds.len() >= n,
        ds2.len() >= n,
        forall|i: int| 0 <= i < n ==> ds[i] == ds2[i],
    ensures
        anchor_errors(anchors.take(n), ds) == anchor_errors(anchors.take(n), ds2),
    decreases n,
{
    if n > 0 {
        assert(anchors.take(n).drop_last() =~= anchors.take(n - 1));
        lemma_anchor_errors_ext(anchors, n - 1, ds, ds2);
    }
}

/// The hrefs present among `anchors`, in order.
pub open spec fn hrefs(anchors: Seq<(Option<Seq<char>>, Seq<char>)>) -> Seq<Seq<char>>
    decreases anchors.len(),
{
    if anchors.len() == 0 {
        Seq::empty()
    } else {
        let r = hrefs(anchors.drop_last());
        match anchors.last().0 {
            Some(h) => r.push(h),
            None => r,
        }
    }
}

proof fn lemma_push_contains(s: Seq<Seq<char>>, x: Seq<char>, h: Seq<char>)
    ensures
        s.push(x).contains(h) <==> (s.contains(h) || x == h),
{
    if s.push(x).contains(h) {
        let k = choose|k: int| 0 <= k < s.push(x).len() && s.push(x)[k] == h;
        if k < s.len() {
            assert(s[k] == h);
        }
    }
    if s.contains(h) {
        let k = choose|k: int| 0 <= k < s.len() && s[k] == h;
        assert(s.push(x)[k] == h);
    }
    if x == h {
        assert(s.push(x)[s.len() as int] == h);
    }
}

proof fn lemma_hrefs_contains(anchors: Seq<(Option<Seq<char>>, Seq<char>)>, n: int, h: Seq<char>)
    requires
        0 <= n <= anchors.len(),
    ensures
        hrefs(anchors.take(n)).contains(h) <==> exists|j: int| 0 <= j < n && #[trigger] anchors[j].0 == Some(h),
    decreases n,
{
    if n > 0 {
        assert(anchors.take(n).drop_last() =~= anchors.take(n - 1));
        lemma_hrefs_contains(anchors, n - 1, h);
        let r = hrefs(anchors.take(n - 1));
        match anchors[n - 1].0 {
            Some(x) => {
                lemma_push_contains(r, x, h);
            },
            None => {},
        }
    } else {
        assert(hrefs(anchors.take(0)) =~= Seq::<Seq<char>>::empty());
    }
}

proof fn lemma_first_href(anchors: Seq<(Option<Seq<char>>, Seq<char>)>, i: int)
    requires
        0 <= i < anchors.len(),
        anchors[i].0 is Some,
    ensures
        first_href(anchors, i) == !hrefs(anchors.take(i)).contains(anchors[i].0->0),
{
    lemma_hrefs_contains(anchors, i, anchors[i].0->0);
}

proof fn lemma_anchor_errors_step(anchors: Seq<(Option<Seq<char>>, Seq<char>)>, i: int, ds: Seq<Option<LinkDefect>>)
    requires
        0 <= i < anchors.len(),
        ds.len() > i,
    ensures
        anchor_errors(anchors.take(i + 1), ds) == match anchors[i].0 {
            Some(href) => if first_href(anchors, i) && ds[i] is Some {
                anchor_errors(anchors.take(i), ds).push(
                    PageErrorView::BrokenInternalLink {
                        target: href,
                        text: trim_ws(anchors[i].1),
                        anchor: url_anchor_split(href).1,
                    },
                )
            } else {
                anchor_errors(anchors.take(i), ds)
            },
            None => anchor_errors(anchors.take(i), ds),
        },
{
    let t = anchors.take(i + 1);
    assert(t.drop_last() =~= anchors.take(i));
    assert(t.last() == anchors[i]);
    assert(t[i] == anchors[i]);
    if first_href(anchors, i) {
        assert forall|j: int| 0 <= j < i implies #[trigger] t[j].0 != t[i].0 by {
            assert(t[j] == anchors[j]);
            assert(anchors[j].0 != anchors[i].0);
        }
    }
    if first_href(t, i) {
        assert forall|j: int| 0 <= j < i implies #[trigger] anchors[j].0 != anchors[i].0 by {
            assert(t[j] == anchors[j]);
            assert(t[j].0 != t[i].0);
        }
    }
}

proof fn lemma_hrefs_step(anchors: Seq<(Option<Seq<char>>, Seq<char>)>, i: int)
    requires
        0 <= i < anchors.len(),
    ensures
        hrefs(anchors.take(i + 1)) == match anchors[i].0 {
            Some(h) => hrefs(anchors.take(i)).push(h),
            None => hrefs(anchors.take(i)),
        },
{
    assert(anchors.take(i + 1).drop_last() =~= anchors.take(i));
}

fn seen_contains(seen: &Vec<Vec<char>>, h: &Vec<char>) -> (r: bool)
    ensures
        r == vec_views(seen@).contains(h@),
{
    let mut k: usize = 0;
    while k < seen.len()
        invariant
            k <= seen@.len(),
            forall|j: int| 0 <= j < k ==> #[trigger] seen@[j]@ != h@,
        decreases seen@.len() - k,
    {
        if chars_eq(&seen[k], h) {
            assert(vec_views(seen@)[k as int] == h@);
            return true;
        }
        k += 1;
    }
    assert(!vec_views(seen@).contains(h@)) by {
        if vec_views(seen@).contains(h@) {
            let j = choose|j: int| 0 <= j < vec_views(seen@).len() && vec_views(seen@)[j] == h@;
            assert(seen@[j]@ == h@);
        }
    }
    false
}

/// The link errors of a page, from its anchors as [`validate_rendered_links`]
/// finds them: each distinct href is judged once, with
/// [`classify_emitted_href`], and reported when it has a defect.
pub fn rendered_link_errors<F: Fn(&str) -> ResolvedPath>(
    anchors: &[(Option<String>, String)],
    page_url: &str,
    resolve: &F,
) -> (r: Vec<PageError>)
    requires
        forall|s: &str| #[trigger] call_requires(*resolve, (s,)),
    ensures
        exists|ds: Seq<Option<LinkDefect>>|
            {
                &&& ds.len() == anchors@.len()
                &&& forall|i: int|
                    0 <= i < ds.len() && #[trigger] element_views(anchors@)[i].0 is Some
                        && first_href(element_views(anchors@), i) ==> defect_possible(
                        element_views(anchors@)[i].0->0,
                        page_url@,
                        *resolve,
                        ds[i],
                    )
                &&& error_views(r@) == #[trigger] anchor_errors(element_views(anchors@), ds)
            },
{
    let ghost av = element_views(anchors@);
    let mut r: Vec<PageError> = Vec::new();
    let mut seen: Vec<Vec<char>> = Vec::new();
    let ghost mut ds: Seq<Option<LinkDefect>> = Seq::empty();
    let mut i: usize = 0;
    while i < anchors.len()
        invariant
            forall|s: &str| #[trigger] call_requires(*resolve, (s,)),
            av == element_views(anchors@),
            av.len() == anchors@.len(),
            i <= anchors@.len(),
            ds.len() == i,
            forall|j: int|
                0 <= j < i && #[trigger] av[j].0 is Some && first_href(av, j) ==> defect_possible(
                    av[j].0->0,
                    page_url@,
                    *resolve,
                    ds[j],
                ),
            forall|x: Seq<char>| vec_views(seen@).contains(x) == hrefs(av.take(i as int)).contains(x),
            error_views(r@) == anchor_errors(av.take(i as int), ds),
        decreases anchors@.len() - i,
    {
        let ghost old_ds = ds;
        let ghost old_r = r@;
        let ghost old_seen = seen@;
        let mut d: Option<LinkDefect> = None;
        proof {
            lemma_hrefs_step(av, i as int);
        }
        match &anchors[i].0 {
            Some(href) => {
                let h = chars_of(href.as_str());
                assert(av[i as int].0 == Some(h@));
                proof {
                    lemma_first_href(av, i as int);
                }
                if !seen_contains(&seen, &h) {
                    d = classify_emitted_href(href.as_str(), page_url, resolve);
                    seen.push(h);
                    proof {
                        lemma_vec_views_push(old_seen, h);
                        assert forall|x: Seq<char>| vec_views(seen@).contains(x) == hrefs(av.take(i + 1)).contains(x) by {
                            lemma_push_contains(vec_views(old_seen), h@, x);
                            lemma_push_contains(hrefs(av.take(i as int)), h@, x);
                        }
                    }
                    match d {
                        Some(_) => {
                            let t = chars_of(anchors[i].1.as_str());
                            let text = string_of(&trim_chars(&t));
                            let (_, anchor) = split_url_anchor(href.as_str());
                            r.push(PageError::BrokenInternalLink { target: href.clone(), text, anchor });
                        },
                        None => {},
                    }
                }
            },
            None => {},
        }
        proof {
            assert forall|x: Seq<char>| vec_views(seen@).contains(x) == hrefs(av.take(i + 1)).contains(x) by {
                match av[i as int].0 {
                    Some(hh) => {
                        lemma_push_contains(hrefs(av.take(i as int)), hh, x);
                    },
                    None => {},
                }
            }
            ds = ds.push(d);
            lemma_anchor_errors_ext(av, i as int, old_ds, ds);
            lemma_anchor_errors_step(av, i as int, ds);
            assert(error_views(r@) =~= anchor_errors(av.take(i + 1), ds));
        }
        i += 1;
    }
    assert(av.take(i as int) =~= av);
    r
}

/// Validates every `<a href>` in the page's rendered HTML: the layer that
/// sees link-transform defects, because it reads the href that was emitted.
pub fn validate_rendered_links<F: Fn(&str) -> ResolvedPath>(html: &str, page_url: &str, resolve: &F) -> (r:
    Vec<PageError>)
    requires
        forall|s: &str| #[trigger] call_requires(*resolve, (s,)),
    ensures
        exists|ds: Seq<Option<LinkDefect>>|
            {
                &&& ds.len() == selected_elements(html@, "a[href]"@, "href"@).len()
                &&& forall|i: int|
                    0 <= i < ds.len() && #[trigger] selected_elements(html@, "a[href]"@, "href"@)[i].0 is Some
                        && first_href(selected_elements(html@, "a[href]"@, "href"@), i) ==> defect_possible(
                        selected_elements(html@, "a[href]"@, "href"@)[i].0->0,
                        page_url@,
                        *resolve,
                        ds[i],
                    )
                &&& error_views(r@) == #[trigger] anchor_errors(selected_elements(html@, "a[href]"@, "href"@), ds)
            },
{
    let anchors = select_elements(html, "a[href]", "href");
    rendered_link_errors(&anchors, page_url, resolve)
}

// ---------------------------------------------------------------------------
// Media
// ---------------------------------------------------------------------------

/// The internal media references among selected elements of one kind: each
/// present, non-empty, non-external `src`, in order.
pub open spec fn media_srcs(els: Seq<(Option<Seq<char>>, Seq<char>)>, kind: MediaKind) -> Seq<(Seq<char>, MediaKind)>
    decreases els.len(),
{
    if els.len() == 0 {
        Seq::empty()
    } else {
        let rest = media_srcs(els.drop_last(), kind);
        match els.last().0 {
            Some(src) => if src.len() > 0 && !is_external(src) {
                rest.push((src, kind))
            } else {
                rest
            },
            None => rest,
        }
    }
}

/// What [`scan_media_elements`] returns: the internal `src` of every
/// `<img>`, then every `<video>`, `<audio>` and `<source>`, with its kind.
pub open spec fn scanned_media(html: Seq<char>) -> Seq<(Seq<char>, MediaKind)> {
    media_srcs(selected_elements(html, "img[src]"@, "src"@), MediaKind::Image) + media_srcs(
        selected_elements(html, "video[src]"@, "src"@),
        MediaKind::Video,
    ) + media_srcs(selected_elements(html, "audio[src]"@, "src"@), MediaKind::Audio) + media_srcs(
        selected_elements(html, "source[src]"@, "src"@),
        MediaKind::Source,
    )
}

/// The views of `(src, kind)` pairs.
pub open spec fn media_views(v: Seq<(String, MediaKind)>) -> Seq<(Seq<char>, MediaKind)> {
    v.map_values(|p: (String, MediaKind)| (p.0@, p.1))
}

fn append_media(out: &mut Vec<(String, MediaKind)>, els: &Vec<(Option<String>, String)>, kind: MediaKind)
    ensures
        media_views(final(out)@) == media_views(old(out)@) + media_srcs(element_views(els@), kind),
{
    let ghost ev = element_views(els@);
    let ghost start = media_views(out@);
    let mut i: usize = 0;
    while i < els.len()
        invariant
            ev == element_views(els@),
            i <= els@.len(),
            media_views(out@) == start + media_srcs(ev.take(i as int), kind),
        decreases els@.len() - i,
    {
        let ghost before = out@;
        assert(ev.take(i + 1).drop_last() =~= ev.take(i as int));
        assert(ev.take(i + 1).last() == ev[i as int]);
        match &els[i].0 {
            Some(src) => {
                if !src.as_str().is_empty() && !is_external_url(src.as_str()) {
                    out.push((src.clone(), kind));
                    assert(media_views(out@) =~= media_views(before).push((src@, kind)));
                }
            },
            None => {},
        }
        i += 1;
    }
    assert(ev.take(i as int) =~= ev);
}

/// Scans rendered HTML for every internal media reference, yielding
/// `(src, kind)` pairs with the `src` verbatim as authored. External
/// (`https:`, `data:`, ...) and empty `src` values are dropped.
pub fn scan_media_elements(html: &str) -> (r: Vec<(String, MediaKind)>)
    ensures
        media_views(r@) == scanned_media(html@),
{
    let mut out: Vec<(String, MediaKind)> = Vec::new();
    let img = select_elements(html, "img[src]", "src");
    append_media(&mut out, &img, MediaKind::Image);
    let video = select_elements(html, "video[src]", "src");
    append_media(&mut out, &video, MediaKind::Video);
    let audio = select_elements(html, "audio[src]", "src");
    append_media(&mut out, &audio, MediaKind::Audio);
    let source = select_elements(html, "source[src]", "src");
    append_media(&mut out, &source, MediaKind::Source);
    assert(media_views(out@) =~= scanned_media(html@));
    out
}

/// `b` is an answer [`media_reference_resolves`] can give for `src` when
/// `resolve` answers as its contract allows: a fragment- or query-only src
/// refers to the page itself; anything else resolves against the page's
/// directory-style URL and is fine unless the server would 404 it.
pub open spec fn resolves_possible<F: Fn(&str) -> ResolvedPath>(
    src: Seq<char>,
    page_url: Seq<char>,
    resolve: F,
    b: bool,
) -> bool {
    let path_part = url_parts(src).0;
    if path_part.len() == 0 {
        b
    } else {
        exists|s: &str, o: ResolvedPath|
            s@ == resolved_url(page_url, path_part, true) && #[trigger] call_ensures(resolve, (s,), o) && b
                == !(o is NotFound)
    }
}

/// Resolves a media `src` against the page's canonical URL the way a
/// browser does (fragment and query stripped, `.`/`..` applied to the
/// directory-style page URL) and asks `resolve` whether the server would
/// serve it.
pub fn media_reference_resolves<F: Fn(&str) -> ResolvedPath>(src: &str, page_url: &str, resolve: &F) -> (r:
    bool)
    requires
        forall|s: &str| #[trigger] call_requires(*resolve, (s,)),
    ensures
        resolves_possible(src@, page_url@, *resolve, r),
{
    let v = chars_of(src);
    let (path_part, _) = split_url_parts(&v);
    if path_part.len() == 0 {
        return true;
    }
    let pp = string_of(&path_part);
    let abs = resolve_relative_url(page_url, pp.as_str(), true);
    let a: &str = abs.as_str();
    let outcome = resolve(a);
    assert(call_ensures(*resolve, (a,), outcome));
    match outcome {
        ResolvedPath::NotFound => false,
        _ => true,
    }
}

/// The errors for media references given whether each resolves: one per
/// reference that does not, in order.
pub open spec fn media_errors(refs: Seq<(Seq<char>, MediaKind)>, ok: Seq<bool>) -> Seq<PageErrorView>
    decreases refs.len(),
{
    if refs.len() == 0 {
        Seq::empty()
    } else {
        let rest = media_errors(refs.drop_last(), ok);
        if ok[refs.len() - 1] {
            rest
        } else {
            rest.push(PageErrorView::BrokenMediaReference { src: refs.last().0, kind: refs.last().1 })
        }
    }
}

proof fn lemma_media_errors_ext(refs: Seq<(Seq<char>, MediaKind)>, n: int, ok: Seq<bool>, ok2: Seq<bool>)
    requires
        0 <= n <= refs.len(),
        ok.len() >= n,
        ok2.len() >= n,
        forall|i: int| 0 <= i < n ==> ok[i] == ok2[i],
    ensures
        media_errors(refs.take(n), ok) == media_errors(refs.take(n), ok2),
    decreases n,
{
    if n > 0 {
        assert(refs.take(n).drop_last() =~= refs.take(n - 1));
        lemma_media_errors_ext(refs, n - 1, ok, ok2);
    }
}

/// Validates `<img>`, `<video>`, `<audio>` and `<source>` `src` attributes
/// in the rendered HTML of the page at `page_url`: an error is recorded only
/// when the server would actually 404 the request.
pub fn validate_media_references<F: Fn(&str) -> ResolvedPath>(html: &str, page_url: &str, resolve: &F) -> (r:
    Vec<PageError>)
    requires
        forall|s: &str| #[trigger] call_requires(*resolve, (s,)),
    ensures
        exists|ok: Seq<bool>|
            {
                &&& ok.len() == scanned_media(html@).len()
                &&& forall|i: int|
                    0 <= i < ok.len() ==> resolves_possible(
                        #[trigger] scanned_media(html@)[i].0,
                        page_url@,
                        *resolve,
                        ok[i],
                    )
                &&& error_views(r@) == #[trigger] media_errors(scanned_media(html@), ok)
            },
{
    let refs = scan_media_elements(html);
    let ghost mv = media_views(refs@);
    let mut r: Vec<PageError> = Vec::new();
    let ghost mut ok: Seq<bool> = Seq::empty();
    let mut i: usize = 0;
    while i < refs.len()
        invariant
            forall|s: &str| #[trigger] call_requires(*resolve, (s,)),
            mv == media_views(refs@),
            mv == scanned_media(html@),
            i <= refs@.len(),
            ok.len() == i,
            forall|j: int| 0 <= j < i ==> resolves_possible(#[trigger] mv[j].0, page_url@, *resolve, ok[j]),
            error_views(r@) == media_errors(mv.take(i as int), ok),
        decreases refs@.len() - i,
    {
        let ghost old_ok = ok;
        let ghost old_r = r@;
        let b = media_reference_resolves(refs[i].0.as_str(), page_url, resolve);
        assert(mv[i as int].0 == refs@[i as int].0@);
        if !b {
            r.push(PageError::BrokenMediaReference { src: refs[i].0.clone(), kind: refs[i].1 });
        }
        proof {
            ok = ok.push(b);
            lemma_media_errors_ext(mv, i as int, old_ok, ok);
            assert(mv.take(i + 1).drop_last() =~= mv.take(i as int));
            assert(error_views(r@) =~= media_errors(mv.take(i + 1), ok));
        }
        i += 1;
    }
    assert(mv.take(i as int) =~= mv);
    r
}

/// The `src` of a media reference before any `#` or `?`.
pub open spec fn media_path(src: Seq<char>) -> Seq<char> {
    url_parts(src).0
}

/// The non-empty paths of `refs`, in order.
pub open spec fn media_paths(refs: Seq<(Seq<char>, MediaKind)>) -> Seq<Seq<char>>
    decreases refs.len(),
{
    if refs.len() == 0 {
        Seq::empty()
    } else {
        let rest = media_paths(refs.drop_last());
        let p = media_path(refs.last().0);
        if p.len() > 0 {
            rest.push(p)
        } else {
            rest
        }
    }
}

/// Reference `i` is looked at by [`collect_media_references`]: its path is
/// non-empty and no earlier reference had the same path.
pub open spec fn first_media_path(refs: Seq<(Seq<char>, MediaKind)>, i: int) -> bool {
    let p = media_path(refs[i].0);
    p.len() > 0 && !media_paths(refs.take(i)).contains(p)
}

/// The references [`collect_media_references`] returns, given the resolver's
/// answer `os[i]` for each reference it looks at: `(path, kind, file)` for
/// each one served as a static file, in order.
pub open spec fn collected_media(refs: Seq<(Seq<char>, MediaKind)>, os: Seq<Option<ResolvedPath>>) -> Seq<
    (Seq<char>, MediaKind, std::path::PathBuf),
>
    decreases refs.len(),
{
    if refs.len() == 0 {
        Seq::empty()
    } else {
        let rest = collected_media(refs.drop_last(), os);
        let i = refs.len() - 1;
        if first_media_path(refs, i) {
            match os[i] {
                Some(ResolvedPath::StaticFile(p)) => rest.push((media_path(refs[i].0), refs[i].1, p)),
                _ => rest,
            }
        } else {
            rest
        }
    }
}

/// The views of media references.
pub open spec fn reference_views(v: Seq<MediaReference>) -> Seq<(Seq<char>, MediaKind, std::path::PathBuf)> {
    v.map_values(|m: MediaReference| (m.src@, m.kind, m.path))
}

proof fn lemma_collected_media_step(refs: Seq<(Seq<char>, MediaKind)>, i: int, os: Seq<Option<ResolvedPath>>)
    requires
        0 <= i < refs.len(),
        os.len() > i,
    ensures
        collected_media(refs.take(i + 1), os) == if first_media_path(refs, i) {
            match os[i] {
                Some(ResolvedPath::StaticFile(p)) => collected_media(refs.take(i), os).push(
                    (media_path(refs[i].0), refs[i].1, p),
                ),
                _ => collected_media(refs.take(i), os),
            }
        } else {
            collected_media(refs.take(i), os)
        },
        media_paths(refs.take(i + 1)) == if media_path(refs[i].0).len() > 0 {
            media_paths(refs.take(i)).push(media_path(refs[i].0))
        } else {
            media_paths(refs.take(i))
        },
{
    let t = refs.take(i + 1);
    assert(t.drop_last() =~= refs.take(i));
    assert(t[i] == refs[i]);
    assert(t.take(i) =~= refs.take(i));
}

proof fn lemma_collected_media_ext(
    refs: Seq<(Seq<char>, MediaKind)>,
    n: int,
    os: Seq<Option<ResolvedPath>>,
    os2: Seq<Option<ResolvedPath>>,
)
    requires
        0 <= n <= refs.len(),
        os.len() >= n,
        os2.len() >= n,
        forall|i: int| 0 <= i < n ==> os[i] == os2[i],
    ensures
        collected_media(refs.take(n), os) == collected_media(refs.take(n), os2),
    decreases n,
{
    if n > 0 {
        assert(refs.take(n).drop_last() =~= refs.take(n - 1));
        lemma_collected_media_ext(refs, n - 1, os, os2);
        let t = refs.take(n);
        assert(t.take(n - 1) =~= refs.take(n - 1));
    }
}

/// `o` is an answer the resolver can give about media reference `src` of
/// the page at `page_url`.
pub open spec fn media_outcome_possible<F: Fn(&str) -> ResolvedPath>(
    src: Seq<char>,
    page_url: Seq<char>,
    resolve: F,
    o: ResolvedPath,
) -> bool {
    exists|s: &str|
        s@ == resolved_url(page_url, media_path(src), true) && #[trigger] call_ensures(resolve, (s,), o)
}

/// Resolves every internal media reference in `html` to the file the server
/// would serve, dropping those that are not served as static files. The
/// returned `src` has its `#fragment` / `?query` stripped, and references
/// are deduplicated by it, so each file is listed once.
pub fn collect_media_references<F: Fn(&str) -> ResolvedPath>(html: &str, page_url: &str, resolve: &F) -> (r:
    Vec<MediaReference>)
    requires
        forall|s: &str| #[trigger] call_requires(*resolve, (s,)),
    ensures
        exists|os: Seq<Option<ResolvedPath>>|
            {
                &&& os.len() == scanned_media(html@).len()
                &&& forall|i: int|
                    0 <= i < os.len() ==> (#[trigger] os[i] is Some <==> first_media_path(
                        scanned_media(html@),
                        i,
                    ))
                &&& forall|i: int|
                    0 <= i < os.len() && #[trigger] os[i] is Some ==> media_outcome_possible(
                        scanned_media(html@)[i].0,
                        page_url@,
                        *resolve,
                        os[i]->0,
                    )
                &&& reference_views(r@) == #[trigger] collected_media(scanned_media(html@), os)
            },
{
    let refs = scan_media_elements(html);
    let ghost mv = media_views(refs@);
    let mut r: Vec<MediaReference> = Vec::new();
    let mut seen: Vec<Vec<char>> = Vec::new();
    let ghost mut os: Seq<Option<ResolvedPath>> = Seq::empty();
    let mut i: usize = 0;
    while i < refs.len()
        invariant
            forall|s: &str| #[trigger] call_requires(*resolve, (s,)),
            mv == media_views(refs@),
            mv == scanned_media(html@),
            i <= refs@.len(),
            os.len() == i,
            forall|j: int| 0 <= j < i ==> (#[trigger] os[j] is Some <==> first_media_path(mv, j)),
            forall|j: int|
                0 <= j < i && #[trigger] os[j] is Some ==> media_outcome_possible(mv[j].0, page_url@, *resolve, os[j]->0),
            forall|x: Seq<char>| vec_views(seen@).contains(x) == media_paths(mv.take(i as int)).contains(x),
            reference_views(r@) == collected_media(mv.take(i as int), os),
        decreases refs@.len() - i,
    {
        let ghost old_os = os;
        let ghost old_r = r@;
        let ghost old_seen = seen@;
        let ghost mut o: Option<ResolvedPath> = None;
        proof {
            lemma_collected_media_step(mv, i as int, os.push(None));
        }
        assert(mv[i as int].0 == refs@[i as int].0@);
        let v = chars_of(refs[i].0.as_str());
        let (path_part, _) = split_url_parts(&v);
        if path_part.len() > 0 {
            if !seen_contains(&seen, &path_part) {
                seen.push(copy_range(&path_part, 0, path_part.len()));
                proof {
                    assert(seen@.last()@ =~= path_part@);
                    lemma_vec_views_push(old_seen, seen@.last());
                    assert forall|x: Seq<char>| vec_views(seen@).contains(x) == media_paths(mv.take(i + 1)).contains(x) by {
                        lemma_push_contains(vec_views(old_seen), path_part@, x);
                        lemma_push_contains(media_paths(mv.take(i as int)), path_part@, x);
                    }
                }
                let pp = string_of(&path_part);
                let abs = resolve_relative_url(page_url, pp.as_str(), true);
                let a: &str = abs.as_str();
                let outcome = resolve(a);
                assert(call_ensures(*resolve, (a,), outcome));
                proof {
                    o = Some(outcome);
                }
                match outcome {
                    ResolvedPath::StaticFile(path) => {
                        r.push(MediaReference { src: pp, kind: refs[i].1, path });
                    },
                    _ => {},
                }
            } else {
                proof {
                    assert forall|x: Seq<char>| vec_views(seen@).contains(x) == media_paths(mv.take(i + 1)).contains(x) by {
                        lemma_push_contains(media_paths(mv.take(i as int)), path_part@, x);
                    }
                }
            }
        }
        proof {
            os = os.push(o);
            lemma_collected_media_ext(mv, i as int, old_os, os);
            lemma_collected_media_step(mv, i as int, os);
            assert(reference_views(r@) =~= collected_media(mv.take(i + 1), os));
        }
        i += 1;
    }
    assert(mv.take(i as int) =~= mv);
    r
}

// ---------------------------------------------------------------------------
// Wikilinks
// ---------------------------------------------------------------------------

/// A character that may stand inside `[[...]]`: anything but a bracket or a
/// newline.
pub open spec fn is_wikilink_char(c: char) -> bool {
    c != '[' && c != ']' && c != '\n'
}

/// The end of the run of wikilink characters starting at `j`.
pub open spec fn wikilink_run_end(s: Seq<char>, j: int) -> int
    decreases s.len() - j,
{
    if 0 <= j < s.len() && is_wikilink_char(s[j]) {
        wikilink_run_end(s, j + 1)
    } else {
        j
    }
}

/// The literal `[[...]]` wikilinks of `s` from index `i` on, leftmost first
/// and without overlap: `[[`, one or more wikilink characters, `]]`.
pub open spec fn wikilinks_from(s: Seq<char>, i: int) -> Seq<Seq<char>>
    decreases s.len() - i,
{
    if i < 0 || i >= s.len() {
        Seq::empty()
    } else {
        let k = wikilink_run_end(s, i + 2);
        if i + 1 < s.len() && s[i] == '[' && s[i + 1] == '[' && k > i + 2 && k + 1 < s.len() && s[k] == ']'
            && s[k + 1] == ']' {
            seq![s.subrange(i, k + 2)] + wikilinks_from(s, k + 2)
        } else {
            wikilinks_from(s, i + 1)
        }
    }
}

/// `s` with later repeats of an element removed.
pub open spec fn dedup(s: Seq<Seq<char>>) -> Seq<Seq<char>>
    decreases s.len(),
{
    if s.len() == 0 {
        Seq::empty()
    } else {
        let d = dedup(s.drop_last());
        if d.contains(s.last()) {
            d
        } else {
            d.push(s.last())
        }
    }
}

/// Deduplication keeps every item and none twice: the texts reported once
/// each (an unresolved wikilink, a bare URL to embed) are exactly the texts
/// found.
pub proof fn law_dedup_keeps_each_once(s: Seq<Seq<char>>)
    ensures
        dedup(s).no_duplicates(),
        forall|x: Seq<char>| dedup(s).contains(x) <==> s.contains(x),
    decreases s.len(),
{
    if s.len() > 0 {
        law_dedup_keeps_each_once(s.drop_last());
        let d = dedup(s.drop_last());
        assert forall|x: Seq<char>| dedup(s).contains(x) <==> s.contains(x) by {
            assert(s.contains(x) <==> (s.drop_last().contains(x) || x == s.last())) by {
                if s.contains(x) {
                    let j = choose|j: int| 0 <= j < s.len() && s[j] == x;
                    if j < s.len() - 1 {
                        assert(s.drop_last()[j] == x);
                    }
                }
                if s.drop_last().contains(x) {
                    let j = choose|j: int| 0 <= j < s.drop_last().len() && s.drop_last()[j] == x;
                    assert(s[j] == x);
                }
                if x == s.last() {
                    assert(s[s.len() - 1] == x);
                }
            }
            assert(d.contains(x) <==> s.drop_last().contains(x));
            if !d.contains(s.last()) {
                assert(d.push(s.last()).contains(x) <==> (d.contains(x) || x == s.last())) by {
                    if d.push(s.last()).contains(x) {
                        let j = choose|j: int| 0 <= j < d.push(s.last()).len() && d.push(s.last())[j] == x;
                        if j < d.len() {
                            assert(d[j] == x);
                        }
                    }
                    if d.contains(x) {
                        let j = choose|j: int| 0 <= j < d.len() && d[j] == x;
                        assert(d.push(s.last())[j] == x);
                    }
                    if x == s.last() {
                        assert(d.push(s.last())[d.len() as int] == x);
                    }
                }
            }
        }
        if !d.contains(s.last()) {
            let e = d.push(s.last());
            assert forall|i: int, j: int| 0 <= i < e.len() && 0 <= j < e.len() && i != j implies e[i] != e[j] by {
                if i == d.len() && j < d.len() {
                    assert(d[j] != s.last());
                } else if j == d.len() && i < d.len() {
                    assert(d[i] != s.last());
                }
            }
        }
    }
}

/// One error per literal.
pub open spec fn wikilink_errors(raws: Seq<Seq<char>>) -> Seq<PageErrorView> {
    raws.map_values(|raw: Seq<char>| PageErrorView::UnresolvedWikilink { raw })
}

proof fn lemma_run_end(s: Seq<char>, j: int)
    requires
        0 <= j,
    ensures
        j <= wikilink_run_end(s, j),
        wikilink_run_end(s, j) <= s.len() || wikilink_run_end(s, j) == j,
    decreases s.len() - j,
{
    if 0 <= j < s.len() && is_wikilink_char(s[j]) {
        lemma_run_end(s, j + 1);
    }
}

/// The `[[...]]` literals of `text` (as [`wikilinks_from`] finds them), each
/// reported once, in order of first appearance.
pub fn unresolved_wikilinks_in(text: &str) -> (r: Vec<PageError>)
    ensures
        error_views(r@) == wikilink_errors(dedup(wikilinks_from(text@, 0))),
{
    let v = chars_of(text);
    let n = v.len();
    let mut r: Vec<PageError> = Vec::new();
    let mut seen: Vec<Vec<char>> = Vec::new();
    let ghost mut all: Seq<Seq<char>> = Seq::empty();
    let mut i: usize = 0;
    while i < n
        invariant
            n == v@.len(),
            v@ == text@,
            i <= n,
            wikilinks_from(v@, 0) == all + wikilinks_from(v@, i as int),
            vec_views(seen@) == dedup(all),
            error_views(r@) == wikilink_errors(dedup(all)),
        decreases n - i,
    {
        let mut next: usize = i + 1;
        if i + 1 < n && v[i] == '[' && v[i + 1] == '[' {
            let mut k: usize = i + 2;
            while k < n && v[k] != '[' && v[k] != ']' && v[k] != '\n'
                invariant
                    n == v@.len(),
                    i + 2 <= k <= n,
                    wikilink_run_end(v@, i + 2) == wikilink_run_end(v@, k as int),
                decreases n - k,
            {
                k += 1;
            }
            assert(wikilink_run_end(v@, k as int) == k);
            if k > i + 2 && k < n && k + 1 < n && v[k] == ']' && v[k + 1] == ']' {
                let raw = copy_range(&v, i, k + 2);
                let ghost old_all = all;
                let ghost old_seen = seen@;
                let ghost old_r = r@;
                proof {
                    all = all.push(raw@);
                    assert(all =~= old_all + seq![raw@]);
                    assert(wikilinks_from(v@, i as int) == seq![v@.subrange(i as int, k + 2)] + wikilinks_from(v@, k + 2));
                    assert(wikilinks_from(v@, 0) =~= all + wikilinks_from(v@, k + 2));
                    assert(all.drop_last() =~= old_all);
                }
                if !seen_contains(&seen, &raw) {
                    let e = PageError::UnresolvedWikilink { raw: string_of(&raw) };
                    seen.push(raw);
                    r.push(e);
                    proof {
                        lemma_vec_views_push(old_seen, seen@.last());
                        assert(all.last() == raw@);
                        assert(dedup(all) == dedup(old_all).push(raw@));
                        assert(error_views(r@) =~= wikilink_errors(dedup(old_all)).push(
                            PageErrorView::UnresolvedWikilink { raw: raw@ },
                        ));
                        assert(wikilink_errors(dedup(all)) =~= wikilink_errors(dedup(old_all)).push(
                            PageErrorView::UnresolvedWikilink { raw: raw@ },
                        ));
                    }
                }
                next = k + 2;
            }
        }
        if next == i + 1 {
            assert(wikilinks_from(v@, i as int) == wikilinks_from(v@, i + 1));
        }
        i = next;
    }
    assert(all + wikilinks_from(v@, i as int) =~= all);
    r
}

/// The regular expression for a `<code>` or `<pre>` element and everything
/// in it, case-insensitively and across lines.
pub const CODE_BLOCK_PATTERN: &'static str = r"(?is)<code\b[^>]*>.*?</code>|<pre\b[^>]*>.*?</pre>";

/// As many spaces as `s` has bytes.
pub fn spaces_for(s: &str) -> (r: Vec<char>)
    ensures
        r@ == Seq::new(byte_len(s@) as nat, |_i: int| ' '),
{
    let n = s.len();
    let mut v: Vec<char> = Vec::new();
    let mut i: usize = 0;
    while i < n
        invariant
            i <= n,
            v@ == Seq::new(i as nat, |_i: int| ' '),
        decreases n - i,
    {
        v.push(' ');
        i += 1;
        assert(v@ =~= Seq::new(i as nat, |_i: int| ' '));
    }
    v
}

/// `html` with `<code>` and `<pre>` blocks blanked out, so the wikilink scan
/// does not report examples written in code samples; offsets are kept.
pub open spec fn code_masked(html: Seq<char>) -> Seq<char> {
    match regex_pieces(CODE_BLOCK_PATTERN@, html, Seq::empty()) {
        Some(p) => spliced(
            p.0,
            p.1,
            p.0.map_values(|pv: PieceView| Seq::new(byte_len(pv.1) as nat, |_i: int| ' ')),
        ),
        None => html,
    }
}

/// Detects literal `[[...]]` strings left in the rendered HTML by failed
/// wikilink transformation, outside `<code>` and `<pre>` blocks; each
/// distinct literal is reported once.
pub fn detect_unresolved_wikilinks(html: &str) -> (r: Vec<PageError>)
    ensures
        error_views(r@) == wikilink_errors(dedup(wikilinks_from(code_masked(html@), 0))),
{
    let no_groups: [&str; 0] = [];
    let masked = match regex_split(CODE_BLOCK_PATTERN, html, &no_groups) {
        None => html.to_owned(),
        Some((pieces, tail)) => {
            let ghost pv = piece_views(pieces@);
            let mut reps: Vec<Vec<char>> = Vec::new();
            let mut i: usize = 0;
            while i < pieces.len()
                invariant
                    pv == piece_views(pieces@),
                    i <= pieces@.len(),
                    reps@.len() == i,
                    forall|k: int| 0 <= k < i ==> #[trigger] reps@[k]@ == Seq::new(byte_len(pv[k].1) as nat, |_i: int| ' '),
                decreases pieces@.len() - i,
            {
                assert(pv[i as int].1 == pieces@[i as int].matched@);
                reps.push(spaces_for(pieces[i].matched.as_str()));
                i += 1;
            }
            assert(views_of_vecs(reps@) =~= pv.map_values(|p: PieceView| Seq::new(byte_len(p.1) as nat, |_i: int| ' ')));
            splice(&pieces, &tail, &reps)
        },
    };
    assert(name_views(no_groups@) =~= Seq::empty());
    unresolved_wikilinks_in(masked.as_str())
}

} // verus!
