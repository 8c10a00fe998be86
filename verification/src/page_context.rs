//! Template-context decisions shared by server rendering and static builds:
//! how URLs are emitted, which mode flags a page carries, tag labels, and
//! the prev/next and reading-time values of a markdown page.

use vstd::prelude::*;
use crate::link_index::opt_view;
use crate::link_transform::{make_relative_url, relative_url};
use crate::text::{chars_eq, chars_of, push_all, string_of};

verus! {

/// How URLs are emitted into a template context.
#[derive(Debug, Clone, Copy, PartialEq, Eq, Structural)]
pub enum UrlMode {
    /// Server mode: absolute URLs, used as-is.
    Absolute,
    /// Static build: URLs rewritten relative to a page at the given depth.
    RelativeToDepth(usize),
}

/// A URL fits the relative rewrite at `depth` within the machine's lengths.
pub open spec fn rewrite_fits(mode: UrlMode, url: Seq<char>) -> bool {
    match mode {
        UrlMode::Absolute => true,
        UrlMode::RelativeToDepth(depth) => 3 * depth + url.len() + 2 <= usize::MAX,
    }
}

/// What [`UrlMode::rewrite`] returns.
pub open spec fn rewritten_url(mode: UrlMode, url: Seq<char>) -> Seq<char> {
    match mode {
        UrlMode::Absolute => url,
        UrlMode::RelativeToDepth(depth) => relative_url(url, depth as nat),
    }
}

impl UrlMode {
    /// Rewrites an absolute URL according to this mode.
    pub fn rewrite(&self, url: &str) -> (r: String)
        requires
            rewrite_fits(*self, url@),
        ensures
            r@ == rewritten_url(*self, url@),
    {
        match self {
            UrlMode::Absolute => url.to_owned(),
            UrlMode::RelativeToDepth(depth) => make_relative_url(url, *depth),
        }
    }
}

/// The `server_mode`/`gui_mode`/`relative_base`/`relative_root` key set,
/// which varies per render mode (and per page type within server mode).
#[derive(Debug, Clone, Copy, PartialEq, Eq, Structural)]
pub enum ModeFlags {
    Server {
        /// `Some(flag)` inserts `gui_mode`; `None` omits the key entirely
        /// (tag pages don't emit it).
        gui_mode: Option<bool>,
        /// When true, inserts `relative_base: "/.mbr/"` (tag pages and the
        /// media viewer emit it in server mode; other pages don't).
        mbr_base: bool,
    },
    Static {
        /// Page depth used to compute `relative_base`/`relative_root`.
        depth: usize,
    },
}

/// Common page "chrome": mode flags, sidebar configuration, and title
/// prefix/suffix. Every non-markdown page inserts this set.
pub struct PageChrome<'a> {
    pub mode: ModeFlags,
    pub sidebar_style: &'a str,
    pub sidebar_max_items: usize,
    /// `Some((prefix, suffix))` for content pages; `None` for error pages,
    /// which omit `title_prefix`/`title_suffix`.
    pub title_affixes: Option<(&'a str, &'a str)>,
}

/// One frontmatter field that pages are tagged by, with optional display
/// labels.
#[derive(Debug, Clone)]
pub struct TagSource {
    /// The frontmatter field name (also the URL segment of its tag pages).
    pub field: String,
    /// Singular display label; defaults to the field name.
    pub label: Option<String>,
    /// Plural display label; defaults to the singular label plus `s`.
    pub label_plural: Option<String>,
}

/// What [`TagSource::url_source`] returns.
pub open spec fn tag_url_source(t: TagSource) -> Seq<char> {
    t.field@
}

/// What [`TagSource::singular_label`] returns.
pub open spec fn tag_singular(t: TagSource) -> Seq<char> {
    match opt_view(t.label) {
        Some(l) => l,
        None => t.field@,
    }
}

/// What [`TagSource::plural_label`] returns.
pub open spec fn tag_plural(t: TagSource) -> Seq<char> {
    match opt_view(t.label_plural) {
        Some(p) => p,
        None => tag_singular(t) + seq!['s'],
    }
}

impl TagSource {
    /// The URL segment under which this source's tag pages live.
    pub fn url_source(&self) -> (r: String)
        ensures
            r@ == tag_url_source(*self),
    {
        self.field.clone()
    }

    /// The singular display label.
    pub fn singular_label(&self) -> (r: String)
        ensures
            r@ == tag_singular(*self),
    {
        match &self.label {
            Some(l) => l.clone(),
            None => self.field.clone(),
        }
    }

    /// The plural display label.
    pub fn plural_label(&self) -> (r: String)
        ensures
            r@ == tag_plural(*self),
    {
        match &self.label_plural {
            Some(p) => p.clone(),
            None => {
                let s = self.singular_label();
                let mut v = chars_of(s.as_str());
                v.push('s');
                string_of(&v)
            },
        }
    }
}

/// Index of the first source whose URL segment is `source`.
pub open spec fn first_source(sources: Seq<TagSource>, source: Seq<char>) -> Option<int>
    decreases sources.len(),
{
    if sources.len() == 0 {
        None
    } else {
        match first_source(sources.drop_last(), source) {
            Some(i) => Some(i),
            None => if tag_url_source(sources.last()) == source {
                Some(sources.len() - 1)
            } else {
                None
            },
        }
    }
}

/// What [`tag_labels`] returns: the labels of the first configured source
/// for `source`, else `fallback` and `{fallback}s`.
pub open spec fn tag_labels_of(sources: Seq<TagSource>, source: Seq<char>, fallback: Seq<char>) -> (
    Seq<char>,
    Seq<char>,
) {
    match first_source(sources, source) {
        Some(i) => (tag_singular(sources[i]), tag_plural(sources[i])),
        None => (fallback, fallback + seq!['s']),
    }
}

/// Resolves singular/plural labels for a tag source. Falls back to
/// `fallback_base` / `{fallback_base}s` when the source is not configured.
pub fn tag_labels(tag_sources: &[TagSource], source: &str, fallback_base: &str) -> (r: (
    String,
    String,
))
    ensures
        (r.0@, r.1@) == tag_labels_of(tag_sources@, source@, fallback_base@),
{
    let want = chars_of(source);
    let mut i: usize = 0;
    while i < tag_sources.len()
        invariant
            i <= tag_sources@.len(),
            want@ == source@,
            first_source(tag_sources@.take(i as int), source@) is None,
        decreases tag_sources@.len() - i,
    {
        let u = tag_sources[i].url_source();
        let uc = chars_of(u.as_str());
        assert(tag_sources@.take(i + 1).drop_last() =~= tag_sources@.take(i as int));
        if chars_eq(&uc, &want) {
            assert(first_source(tag_sources@.take(i + 1), source@) == Some(i as int));
            proof {
                lemma_first_prefix(tag_sources@, source@, (i + 1) as int);
            }
            return (tag_sources[i].singular_label(), tag_sources[i].plural_label());
        }
        i += 1;
    }
    assert(tag_sources@.take(i as int) =~= tag_sources@);
    let mut plural = chars_of(fallback_base);
    plural.push('s');
    (fallback_base.to_owned(), string_of(&plural))
}

/// A match found in a prefix is the first match of the whole sequence.
proof fn lemma_first_prefix(sources: Seq<TagSource>, source: Seq<char>, n: int)
    requires
        0 <= n <= sources.len(),
        first_source(sources.take(n), source) is Some,
    ensures
        first_source(sources, source) == first_source(sources.take(n), source),
    decreases sources.len() - n,
{
    if n < sources.len() {
        assert(sources.take(n + 1).drop_last() =~= sources.take(n));
        lemma_first_prefix(sources, source, n + 1);
    } else {
        assert(sources.take(n) =~= sources);
    }
}

/// Repository-level configuration for the markdown-page context builder.
pub struct MarkdownContextOptions<'a> {
    pub tag_sources: &'a [TagSource],
    pub sidebar_style: &'a str,
    pub sidebar_max_items: usize,
    pub title_prefix: &'a str,
    pub title_suffix: &'a str,
}

/// Reading speed used for the reading-time estimate, in words per minute.
pub const WORDS_PER_MINUTE: usize = 200;

/// Minutes to read `word_count` words at [`WORDS_PER_MINUTE`], rounded up.
pub fn reading_time_minutes(word_count: usize) -> (r: usize)
    ensures
        r * WORDS_PER_MINUTE >= word_count,
        r == 0 || (r - 1) * WORDS_PER_MINUTE < word_count,
{
    let q = word_count / WORDS_PER_MINUTE;
    if word_count % WORDS_PER_MINUTE == 0 {
        q
    } else {
        q + 1
    }
}

/// Index of the first sibling whose URL is `current`.
pub open spec fn sibling_position(urls: Seq<Option<Seq<char>>>, current: Seq<char>) -> Option<int>
    decreases urls.len(),
{
    if urls.len() == 0 {
        None
    } else {
        match sibling_position(urls.drop_last(), current) {
            Some(i) => Some(i),
            None => if urls.last() == Some(current) {
                Some(urls.len() - 1)
            } else {
                None
            },
        }
    }
}

/// The previous and next siblings of the current page: the pages just
/// before and after the first sibling whose URL is `current`, when they
/// exist.
pub open spec fn neighbors(urls: Seq<Option<Seq<char>>>, current: Seq<char>) -> (Option<int>, Option<int>) {
    match sibling_position(urls, current) {
        Some(i) => (if i > 0 {
            Some(i - 1)
        } else {
            None
        }, if i + 1 < urls.len() {
            Some(i + 1)
        } else {
            None
        }),
        None => (None, None),
    }
}

/// The views of optional strings.
pub open spec fn opt_views(v: Seq<Option<String>>) -> Seq<Option<Seq<char>>> {
    v.map_values(|o: Option<String>| opt_view(o))
}

proof fn lemma_sibling_position_prefix(urls: Seq<Option<Seq<char>>>, current: Seq<char>, n: int)
    requires
        0 <= n <= urls.len(),
        sibling_position(urls.take(n), current) is Some,
    ensures
        sibling_position(urls, current) == sibling_position(urls.take(n), current),
    decreases urls.len() - n,
{
    if n < urls.len() {
        assert(urls.take(n + 1).drop_last() =~= urls.take(n));
        lemma_sibling_position_prefix(urls, current, n + 1);
    } else {
        assert(urls.take(n) =~= urls);
    }
}

/// The indices of the previous and next sibling pages for prev/next
/// navigation, given each sibling's URL (`None` when it has none): see
/// [`neighbors`].
pub fn sibling_neighbors(sibling_urls: &[Option<String>], current_url: &str) -> (r: (Option<usize>, Option<usize>))
    ensures
        (match r.0 {
            Some(i) => Some(i as int),
            None => None,
        }, match r.1 {
            Some(i) => Some(i as int),
            None => None,
        }) == neighbors(opt_views(sibling_urls@), current_url@),
{
    let ghost uv = opt_views(sibling_urls@);
    let cur = chars_of(current_url);
    let mut i: usize = 0;
    while i < sibling_urls.len()
        invariant
            uv == opt_views(sibling_urls@),
            cur@ == current_url@,
            i <= sibling_urls@.len(),
            sibling_position(uv.take(i as int), current_url@) is None,
        decreases sibling_urls@.len() - i,
    {
        assert(uv.take(i + 1).drop_last() =~= uv.take(i as int));
        assert(uv[i as int] == opt_view(sibling_urls@[i as int]));
        let hit = match &sibling_urls[i] {
            Some(u) => {
                let uc = chars_of(u.as_str());
                chars_eq(&uc, &cur)
            },
            None => false,
        };
        if hit {
            proof {
                lemma_sibling_position_prefix(uv, current_url@, i + 1);
            }
            let prev = if i > 0 {
                Some(i - 1)
            } else {
                None
            };
            let next = if i + 1 < sibling_urls.len() {
                Some(i + 1)
            } else {
                None
            };
            return (prev, next);
        }
        i += 1;
    }
    assert(uv.take(i as int) =~= uv);
    (None, None)
}

/// What [`UrlMode::nav_url`] returns: in server mode the sibling's URL as
/// it is (absent stays absent); in a static build its URL (or `/`) made
/// relative to the page depth.
pub open spec fn nav_url_of(mode: UrlMode, url_path: Option<Seq<char>>) -> Option<Seq<char>> {
    match mode {
        UrlMode::Absolute => url_path,
        UrlMode::RelativeToDepth(depth) => Some(
            relative_url(
                match url_path {
                    Some(u) => u,
                    None => seq!['/'],
                },
                depth as nat,
            ),
        ),
    }
}

impl UrlMode {
    /// The URL of a sibling page (from its `url_path`) for prev/next
    /// navigation.
    pub fn nav_url(&self, url_path: Option<&str>) -> (r: Option<String>)
        requires
            match *self {
                UrlMode::Absolute => true,
                UrlMode::RelativeToDepth(d) => 3 * d + match url_path {
                    Some(u) => u@.len(),
                    None => 1,
                } + 2 <= usize::MAX,
            },
        ensures
            opt_view(r) == nav_url_of(
                *self,
                match url_path {
                    Some(u) => Some(u@),
                    None => None,
                },
            ),
    {
        match self {
            UrlMode::Absolute => match url_path {
                Some(u) => Some(u.to_owned()),
                None => None,
            },
            UrlMode::RelativeToDepth(depth) => {
                proof {
                    reveal_strlit("/");
                }
                let u = match url_path {
                    Some(u) => u,
                    None => "/",
                };
                assert(u@ == match url_path {
                    Some(x) => x@,
                    None => seq!['/'],
                });
                Some(make_relative_url(u, *depth))
            },
        }
    }
}

// ---------------------------------------------------------------------------
// Laws
// ---------------------------------------------------------------------------

proof fn lemma_sibling_position_exact(urls: Seq<Option<Seq<char>>>, current: Seq<char>, i: int)
    requires
        0 <= i <= urls.len(),
        i < urls.len() ==> urls[i] == Some(current),
        forall|j: int| 0 <= j < i ==> #[trigger] urls[j] != Some(current),
    ensures
        sibling_position(urls, current) == if i < urls.len() { Some(i) } else { None::<int> },
    decreases urls.len(),
{
    if urls.len() > 0 {
        let d = urls.drop_last();
        if i == urls.len() - 1 {
            assert forall|j: int| 0 <= j < d.len() implies #[trigger] d[j] != Some(current) by {
                assert(d[j] == urls[j]);
            }
            lemma_sibling_position_exact(d, current, d.len() as int);
        } else if i < urls.len() - 1 {
            assert(d[i] == urls[i]);
            assert forall|j: int| 0 <= j < i implies #[trigger] d[j] != Some(current) by {
                assert(d[j] == urls[j]);
            }
            lemma_sibling_position_exact(d, current, i);
        } else {
            assert forall|j: int| 0 <= j < d.len() implies #[trigger] d[j] != Some(current) by {
                assert(d[j] == urls[j]);
            }
            lemma_sibling_position_exact(d, current, d.len() as int);
            assert(urls.last() == urls[urls.len() - 1]);
        }
    }
}

/// Prev/next navigation surrounds the current page: when the first sibling
/// whose URL is `current` stands at `i`, the previous page is the one at
/// `i - 1` and the next the one at `i + 1`, each when it exists; a page
/// that is no sibling has neither.
pub proof fn law_neighbors_surround_the_page(urls: Seq<Option<Seq<char>>>, current: Seq<char>, i: int)
    requires
        0 <= i <= urls.len(),
        i < urls.len() ==> urls[i] == Some(current),
        forall|j: int| 0 <= j < i ==> #[trigger] urls[j] != Some(current),
    ensures
        i < urls.len() ==> neighbors(urls, current) == (if i > 0 {
            Some(i - 1)
        } else {
            None
        }, if i + 1 < urls.len() {
            Some(i + 1)
        } else {
            None
        }),
        i == urls.len() ==> neighbors(urls, current) == (None::<int>, None::<int>),
{
    lemma_sibling_position_exact(urls, current, i);
}

} // verus!
