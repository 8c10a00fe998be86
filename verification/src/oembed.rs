//! Page metadata shown for bare URLs (title, description, image or an
//! embed), and small helpers around fetching it.

use vstd::prelude::*;
use crate::link_index::opt_view;
use crate::text::{chars_of, copy_range, find_char, push_all, string_of};
use crate::media::{embed_html, media_embed_for, MediaEmbed};
use crate::regex_text::{name_views, piece_views, regex_pieces, regex_split};
use crate::page_errors::{select_elements, selected_elements};

verus! {

/// Metadata for a linked page.
#[derive(Debug, Clone)]
pub struct PageInfo {
    pub url: String,
    /// Page title, stored text-escaped (safe for element text context only)
    pub title: Option<String>,
    /// Page description, stored text-escaped (safe for element text context only)
    pub description: Option<String>,
    /// Image/favicon URL, stored RAW; escaped at render time for attribute context
    pub image: Option<String>,
    /// Embed HTML for YouTube and other embeddable content
    pub embed_html: Option<String>,
}

impl Default for PageInfo {
    fn default() -> (r: Self)
        ensures
            r.url@.len() == 0,
            r.title is None,
            r.description is None,
            r.image is None,
            r.embed_html is None,
    {
        PageInfo { url: String::new(), title: None, description: None, image: None, embed_html: None }
    }
}

/// The length in bytes of a string's UTF-8 encoding, as `str::len` gives it.
pub open spec fn byte_len(s: Seq<char>) -> int {
    (vstd::utf8::encode_utf8(s).len() as usize) as int
}

/// The UTF-8 length of an optional string (0 when absent).
pub open spec fn opt_bytes(o: Option<String>) -> int {
    match o {
        Some(s) => byte_len(s@),
        None => 0,
    }
}

/// What [`PageInfo::estimated_size`] returns: the struct itself plus the
/// bytes of every string it holds.
pub open spec fn page_info_size(p: PageInfo) -> int {
    vstd::layout::size_of::<PageInfo>() + byte_len(p.url@) + opt_bytes(p.title)
        + opt_bytes(p.description) + opt_bytes(p.image) + opt_bytes(p.embed_html)
}

/// `title: url`, with `no title` when there is none.
pub open spec fn page_info_text(p: PageInfo) -> Seq<char> {
    (match opt_view(p.title) {
        Some(t) => t,
        None => "no title"@,
    }) + ": "@ + p.url@
}

fn opt_len(o: &Option<String>) -> (n: usize)
    ensures
        n == opt_bytes(*o),
{
    match o {
        Some(s) => {
            let st = s.as_str();
            st.len()
        },
        None => 0,
    }
}

impl PageInfo {
    /// Estimates the memory size of this PageInfo in bytes: the struct plus
    /// the heap-allocated strings.
    pub fn estimated_size(&self) -> (n: usize)
        requires
            page_info_size(*self) <= usize::MAX,
        ensures
            n == page_info_size(*self),
            n >= vstd::layout::size_of::<PageInfo>(),
    {
        core::mem::size_of::<PageInfo>() + self.url.as_str().len() + opt_len(&self.title) + opt_len(
            &self.description,
        ) + opt_len(&self.image) + opt_len(&self.embed_html)
    }

    /// `"{title}: {url}"`, with `no title` when there is no title.
    pub fn text(&self) -> (r: String)
        ensures
            r@ == page_info_text(*self),
    {
        let mut out: Vec<char> = Vec::new();
        match &self.title {
            Some(t) => {
                let c = chars_of(t.as_str());
                push_all(&mut out, &c);
            },
            None => {
                let c = chars_of("no title");
                push_all(&mut out, &c);
            },
        }
        let sep = chars_of(": ");
        push_all(&mut out, &sep);
        let u = chars_of(self.url.as_str());
        push_all(&mut out, &u);
        string_of(&out)
    }
}

/// Favicon MIME types that render as an image.
pub open spec fn supported_favicon_type(t: Seq<char>) -> bool {
    ||| t == "image/png"@
    ||| t == "image/jpeg"@
    ||| t == "image/jpg"@
    ||| t == "image/svg+xml"@
    ||| t == "image/x-icon"@
    ||| t == "image/vnd.microsoft.icon"@
}

fn chars_are(v: &Vec<char>, lit: &str) -> (r: bool)
    ensures
        r == (v@ == lit@),
{
    let l = chars_of(lit);
    crate::text::chars_eq(v, &l)
}

/// Whether a favicon `type` attribute names an image type that renders; a
/// missing attribute is assumed supported.
pub fn is_supported_favicon_type(type_attr: Option<&str>) -> (r: bool)
    ensures
        r == match type_attr {
            None => true,
            Some(t) => supported_favicon_type(t@),
        },
{
    match type_attr {
        None => true,
        Some(t) => {
            let tv = chars_of(t);
            chars_are(&tv, "image/png") || chars_are(&tv, "image/jpeg") || chars_are(&tv, "image/jpg")
                || chars_are(&tv, "image/svg+xml") || chars_are(&tv, "image/x-icon") || chars_are(
                &tv,
                "image/vnd.microsoft.icon",
            )
        },
    }
}

/// The messages joined with ` -> `.
pub open spec fn joined_chain(chain: Seq<Seq<char>>) -> Seq<char>
    decreases chain.len(),
{
    if chain.len() == 0 {
        Seq::empty()
    } else if chain.len() == 1 {
        chain[0]
    } else {
        joined_chain(chain.drop_last()) + " -> "@ + chain.last()
    }
}

/// Formats an error's message chain — the error first, then each
/// `source()` in turn — joined with ` -> ` for logging.
pub fn format_error_chain(chain: &[String]) -> (r: String)
    ensures
        r@ == joined_chain(chain@.map_values(|s: String| s@)),
{
    let ghost cv = chain@.map_values(|s: String| s@);
    let mut out: Vec<char> = Vec::new();
    let sep = chars_of(" -> ");
    let mut i: usize = 0;
    while i < chain.len()
        invariant
            cv == chain@.map_values(|s: String| s@),
            sep@ == " -> "@,
            i <= chain@.len(),
            out@ == joined_chain(cv.take(i as int)),
        decreases chain@.len() - i,
    {
        assert(cv.take(i + 1).drop_last() =~= cv.take(i as int));
        assert(cv.take(i + 1).last() == chain@[i as int]@);
        if i > 0 {
            push_all(&mut out, &sep);
        } else {
            assert(cv.take(1)[0] == chain@[0]@);
        }
        let c = chars_of(chain[i].as_str());
        push_all(&mut out, &c);
        i += 1;
    }
    assert(cv.take(chain@.len() as int) =~= cv);
    string_of(&out)
}

// ---------------------------------------------------------------------------
// Escaping
// ---------------------------------------------------------------------------

/// A character escaped for element text: `&`, `<` and `>` as entities.
pub open spec fn text_escape_char(c: char) -> Seq<char> {
    if c == '&' {
        "&amp;"@
    } else if c == '<' {
        "&lt;"@
    } else if c == '>' {
        "&gt;"@
    } else {
        seq![c]
    }
}

/// `s` escaped for element text.
pub open spec fn text_escaped(s: Seq<char>) -> Seq<char>
    decreases s.len(),
{
    if s.len() == 0 {
        Seq::empty()
    } else {
        text_escaped(s.drop_last()) + text_escape_char(s.last())
    }
}

/// A character escaped for a double-quoted attribute: as for text, and `"`
/// as `&quot;`.
pub open spec fn attr_escape_char(c: char) -> Seq<char> {
    if c == '"' {
        "&quot;"@
    } else {
        text_escape_char(c)
    }
}

/// `s` escaped for a double-quoted attribute value.
pub open spec fn attr_escaped(s: Seq<char>) -> Seq<char>
    decreases s.len(),
{
    if s.len() == 0 {
        Seq::empty()
    } else {
        attr_escaped(s.drop_last()) + attr_escape_char(s.last())
    }
}

proof fn lemma_entities_plain(c: char)
    requires
        c == '<' || c == '>' || c == '"',
    ensures
        !"&amp;"@.contains(c),
        !"&lt;"@.contains(c),
        !"&gt;"@.contains(c),
        !"&quot;"@.contains(c),
{
    reveal_strlit("&amp;");
    reveal_strlit("&lt;");
    reveal_strlit("&gt;");
    reveal_strlit("&quot;");
    assert(!"&amp;"@.contains(c)) by {
        if "&amp;"@.contains(c) {
            let j = choose|j: int| 0 <= j < "&amp;"@.len() && "&amp;"@[j] == c;
        }
    }
    assert(!"&lt;"@.contains(c)) by {
        if "&lt;"@.contains(c) {
            let j = choose|j: int| 0 <= j < "&lt;"@.len() && "&lt;"@[j] == c;
        }
    }
    assert(!"&gt;"@.contains(c)) by {
        if "&gt;"@.contains(c) {
            let j = choose|j: int| 0 <= j < "&gt;"@.len() && "&gt;"@[j] == c;
        }
    }
    assert(!"&quot;"@.contains(c)) by {
        if "&quot;"@.contains(c) {
            let j = choose|j: int| 0 <= j < "&quot;"@.len() && "&quot;"@[j] == c;
        }
    }
}

proof fn lemma_concat_lacks(a: Seq<char>, b: Seq<char>, c: char)
    requires
        !a.contains(c),
        !b.contains(c),
    ensures
        !(a + b).contains(c),
{
    if (a + b).contains(c) {
        let j = choose|j: int| 0 <= j < (a + b).len() && (a + b)[j] == c;
        if j < a.len() {
            assert(a[j] == c);
        } else {
            assert(b[j - a.len()] == c);
        }
    }
}

/// Escaping for text leaves no `<` or `>`; escaping for a double-quoted
/// attribute leaves no `<`, `>` or `"`. So a card's URL, image and link
/// text, whatever they hold, cannot open a tag or end the attribute they
/// stand in.
pub proof fn law_escaped_values_cannot_inject_markup(s: Seq<char>)
    ensures
        !text_escaped(s).contains('<'),
        !text_escaped(s).contains('>'),
        !attr_escaped(s).contains('<'),
        !attr_escaped(s).contains('>'),
        !attr_escaped(s).contains('"'),
    decreases s.len(),
{
    lemma_entities_plain('<');
    lemma_entities_plain('>');
    lemma_entities_plain('"');
    if s.len() > 0 {
        law_escaped_values_cannot_inject_markup(s.drop_last());
        let c = s.last();
        let tc = text_escape_char(c);
        let ac = attr_escape_char(c);
        assert(!seq![c].contains('<') || c == '<') by {
            if seq![c].contains('<') {
                let j = choose|j: int| 0 <= j < 1 && seq![c][j] == '<';
            }
        }
        assert(!seq![c].contains('>') || c == '>') by {
            if seq![c].contains('>') {
                let j = choose|j: int| 0 <= j < 1 && seq![c][j] == '>';
            }
        }
        assert(!seq![c].contains('"') || c == '"') by {
            if seq![c].contains('"') {
                let j = choose|j: int| 0 <= j < 1 && seq![c][j] == '"';
            }
        }
        assert(!tc.contains('<') && !tc.contains('>'));
        assert(!ac.contains('<') && !ac.contains('>') && !ac.contains('"'));
        lemma_concat_lacks(text_escaped(s.drop_last()), tc, '<');
        lemma_concat_lacks(text_escaped(s.drop_last()), tc, '>');
        lemma_concat_lacks(attr_escaped(s.drop_last()), ac, '<');
        lemma_concat_lacks(attr_escaped(s.drop_last()), ac, '>');
        lemma_concat_lacks(attr_escaped(s.drop_last()), ac, '"');
    } else {
        assert(!Seq::<char>::empty().contains('<'));
        assert(!Seq::<char>::empty().contains('>'));
        assert(!Seq::<char>::empty().contains('"'));
    }
}

/// `html_escape::encode_text`: the contract states what the crate's source
/// does, `&`, `<` and `>` replaced by their entities.
#[verifier::external_body]
fn encode_text(s: &str) -> (r: String)
    ensures
        r@ == text_escaped(s@),
{
    html_escape::encode_text(s).into_owned()
}

/// `html_escape::encode_double_quoted_attribute`: the contract states what
/// the crate's source does, `&`, `<`, `>` and `"` replaced by their
/// entities.
#[verifier::external_body]
fn encode_attr(s: &str) -> (r: String)
    ensures
        r@ == attr_escaped(s@),
{
    html_escape::encode_double_quoted_attribute(s).into_owned()
}

// ---------------------------------------------------------------------------
// Rendering
// ---------------------------------------------------------------------------

pub const CARD_HEAD: &'static str = "<article class='mbr-social-link-box'>\n                    ";
pub const CARD_LINK: &'static str = "\n                    <a href=\"";
pub const CARD_TITLE: &'static str = "\" class='mbr-social-link'>\n                        <header>";
pub const CARD_DESCRIPTION: &'static str = "</header>\n                        <p>";
pub const CARD_TAIL: &'static str = "</p>\n                    </a>\n                </article>\n                ";
pub const IMG_HEAD: &'static str = "<img src=\"";
pub const IMG_TAIL: &'static str = "\"/>";
pub const LINK_HEAD: &'static str = "<a href=\"";
pub const LINK_MID: &'static str = "\">";
pub const LINK_TAIL: &'static str = "</a>";

/// What [`PageInfo::html`] returns: the embed when there is one; else, with
/// a title, a card with the image (if any), the link, title and
/// description; else a plain link. Title and description are stored
/// escaped; the URL and image are escaped here.
pub open spec fn page_info_html(p: PageInfo) -> Seq<char> {
    match opt_view(p.embed_html) {
        Some(e) => e,
        None => match opt_view(p.title) {
            Some(t) => CARD_HEAD@ + match opt_view(p.image) {
                Some(src) => IMG_HEAD@ + attr_escaped(src) + IMG_TAIL@,
                None => Seq::empty(),
            } + CARD_LINK@ + attr_escaped(p.url@) + CARD_TITLE@ + t + CARD_DESCRIPTION@ + match opt_view(
                p.description,
            ) {
                Some(d) => d,
                None => Seq::empty(),
            } + CARD_TAIL@,
            None => LINK_HEAD@ + attr_escaped(p.url@) + LINK_MID@ + text_escaped(p.url@) + LINK_TAIL@,
        },
    }
}

fn push_str_chars(out: &mut Vec<char>, s: &str)
    ensures
        final(out)@ == old(out)@ + s@,
{
    let c = chars_of(s);
    push_all(out, &c);
}

impl PageInfo {
    /// The HTML shown for this link.
    pub fn html(&self) -> (r: String)
        ensures
            r@ == page_info_html(*self),
    {
        match &self.embed_html {
            Some(e) => {
                return e.clone();
            },
            None => {},
        }
        let mut out: Vec<char> = Vec::new();
        match &self.title {
            Some(t) => {
                push_str_chars(&mut out, CARD_HEAD);
                match &self.image {
                    Some(src) => {
                        push_str_chars(&mut out, IMG_HEAD);
                        let e = encode_attr(src.as_str());
                        push_str_chars(&mut out, e.as_str());
                        push_str_chars(&mut out, IMG_TAIL);
                    },
                    None => {},
                }
                push_str_chars(&mut out, CARD_LINK);
                let u = encode_attr(self.url.as_str());
                push_str_chars(&mut out, u.as_str());
                push_str_chars(&mut out, CARD_TITLE);
                push_str_chars(&mut out, t.as_str());
                push_str_chars(&mut out, CARD_DESCRIPTION);
                match &self.description {
                    Some(d) => push_str_chars(&mut out, d.as_str()),
                    None => {},
                }
                push_str_chars(&mut out, CARD_TAIL);
                assert(out@ =~= page_info_html(*self));
            },
            None => {
                push_str_chars(&mut out, LINK_HEAD);
                let u = encode_attr(self.url.as_str());
                push_str_chars(&mut out, u.as_str());
                push_str_chars(&mut out, LINK_MID);
                let t = encode_text(self.url.as_str());
                push_str_chars(&mut out, t.as_str());
                push_str_chars(&mut out, LINK_TAIL);
                assert(out@ =~= page_info_html(*self));
            },
        }
        string_of(&out)
    }
}

// ---------------------------------------------------------------------------
// Embeds made without fetching
// ---------------------------------------------------------------------------

/// A direct Giphy media URL (`media.giphy.com`, `media1.giphy.com`,
/// `i.giphy.com`).
pub const GIPHY_MEDIA_PATTERN: &'static str = r"https?://(?:media\d*|i)\.giphy\.com/";
/// A Giphy page URL `giphy.com/gifs/[name-]ID`, capturing the ID.
pub const GIPHY_PAGE_PATTERN: &'static str = r"https?://(?:www\.)?giphy\.com/gifs/(?:[^/]+-)?(?P<id>[a-zA-Z0-9]+)(?:\?.*)?$";
pub const GIPHY_PAGE_GROUPS: [&'static str; 1] = ["id"];
/// A GitHub gist URL.
pub const GIST_PATTERN: &'static str = r"https?://gist\.github\.com/";

pub const GIPHY_HEAD: &'static str = "<figure class=\"giphy-embed\">\n                    <img src=\"";
pub const GIPHY_TAIL: &'static str = "\" alt=\"Giphy animation\" loading=\"lazy\" />\n                </figure>";
pub const GIPHY_MEDIA_HEAD: &'static str = "https://media.giphy.com/media/";
pub const GIPHY_MEDIA_TAIL: &'static str = "/giphy.gif";
pub const SCRIPT_HEAD: &'static str = "<script src=\"";
pub const SCRIPT_TAIL: &'static str = "\"></script>";

/// `pattern` matches somewhere in `text`.
pub open spec fn regex_found(pattern: Seq<char>, text: Seq<char>) -> bool {
    regex_pieces(pattern, text, Seq::empty()) matches Some(p) && p.0.len() > 0
}

fn regex_is_match(pattern: &str, text: &str) -> (r: bool)
    ensures
        r == regex_found(pattern@, text@),
{
    let none: [&str; 0] = [];
    assert(name_views(none@) =~= Seq::<Seq<char>>::empty());
    match regex_split(pattern, text, &none) {
        Some((ps, _)) => ps.len() > 0,
        None => false,
    }
}

/// What [`PageInfo::giphy_embed`] returns.
pub open spec fn giphy_embed_for(url: Seq<char>) -> Option<Seq<char>> {
    if regex_found(GIPHY_MEDIA_PATTERN@, url) {
        Some(GIPHY_HEAD@ + url + GIPHY_TAIL@)
    } else {
        match regex_pieces(GIPHY_PAGE_PATTERN@, url, name_views(GIPHY_PAGE_GROUPS@)) {
            Some(p) => if p.0.len() > 0 && p.0[0].2[0] is Some {
                Some(GIPHY_HEAD@ + GIPHY_MEDIA_HEAD@ + p.0[0].2[0]->0 + GIPHY_MEDIA_TAIL@ + GIPHY_TAIL@)
            } else {
                None
            },
            None => None,
        }
    }
}

/// What [`PageInfo::gist_embed`] returns: a script tag loading the gist's
/// `.js`, placed before any `#fragment`.
pub open spec fn gist_embed_for(url: Seq<char>) -> Option<Seq<char>> {
    if regex_found(GIST_PATTERN@, url) {
        let script = match find_char(url, '#') {
            Some(k) => url.take(k) + ".js"@ + url.skip(k),
            None => url + ".js"@,
        };
        Some(SCRIPT_HEAD@ + script + SCRIPT_TAIL@)
    } else {
        None
    }
}

impl PageInfo {
    /// Embed HTML for a Giphy URL: direct media URLs are shown as they are,
    /// page URLs `giphy.com/gifs/name-ID` as the media URL of their ID.
    pub fn giphy_embed(url: &str) -> (r: Option<String>)
        ensures
            opt_view(r) == giphy_embed_for(url@),
    {
        if regex_is_match(GIPHY_MEDIA_PATTERN, url) {
            let mut out: Vec<char> = Vec::new();
            push_str_chars(&mut out, GIPHY_HEAD);
            push_str_chars(&mut out, url);
            push_str_chars(&mut out, GIPHY_TAIL);
            return Some(string_of(&out));
        }
        match regex_split(GIPHY_PAGE_PATTERN, url, &GIPHY_PAGE_GROUPS) {
            Some((ps, _)) => {
                if ps.len() > 0 {
                    assert(ps@[0].groups@.len() == 1);
                    assert(piece_views(ps@)[0].2[0] == opt_view(ps@[0].groups@[0]));
                    match &ps[0].groups[0] {
                        Some(id) => {
                            let mut out: Vec<char> = Vec::new();
                            push_str_chars(&mut out, GIPHY_HEAD);
                            push_str_chars(&mut out, GIPHY_MEDIA_HEAD);
                            push_str_chars(&mut out, id.as_str());
                            push_str_chars(&mut out, GIPHY_MEDIA_TAIL);
                            push_str_chars(&mut out, GIPHY_TAIL);
                            Some(string_of(&out))
                        },
                        None => None,
                    }
                } else {
                    None
                }
            },
            None => None,
        }
    }

    /// Embed HTML for a GitHub gist URL.
    pub fn gist_embed(url: &str) -> (r: Option<String>)
        ensures
            opt_view(r) == gist_embed_for(url@),
    {
        if !regex_is_match(GIST_PATTERN, url) {
            return None;
        }
        let v = chars_of(url);
        proof {
            crate::text::lemma_find_from_bounds(v@, '#', 0);
        }
        let mut out: Vec<char> = Vec::new();
        push_str_chars(&mut out, SCRIPT_HEAD);
        match crate::text::find_char_from(&v, '#', 0) {
            Some(k) => {
                let a = copy_range(&v, 0, k);
                let b = copy_range(&v, k, v.len());
                assert(b@ =~= v@.skip(k as int));
                push_all(&mut out, &a);
                push_str_chars(&mut out, ".js");
                push_all(&mut out, &b);
            },
            None => {
                push_all(&mut out, &v);
                push_str_chars(&mut out, ".js");
            },
        }
        push_str_chars(&mut out, SCRIPT_TAIL);
        Some(string_of(&out))
    }
}

/// What [`PageInfo::without_fetch`] returns: with enrichment off (a zero
/// timeout) a plain link; a Giphy, gist or media (video, audio, PDF,
/// YouTube) URL as its embed; `None` when the page must be fetched.
pub open spec fn offline_page_info(url: Seq<char>, timeout_ms: u64) -> Option<(Seq<char>, Option<Seq<char>>)> {
    if timeout_ms == 0 {
        Some((url, None))
    } else {
        match giphy_embed_for(url) {
            Some(e) => Some((url, Some(e))),
            None => match gist_embed_for(url) {
                Some(e) => Some((url, Some(e))),
                None => match media_embed_for(url, Seq::empty()) {
                    Some(m) => Some((url, Some(embed_html(m, false)))),
                    None => None,
                },
            },
        }
    }
}

impl PageInfo {
    /// The page info for `url` when no network call is needed: with a zero
    /// timeout (enrichment disabled) a plain link, for Giphy, gist and media
    /// URLs their embed; `None` when the page's metadata has to be fetched.
    /// The result has no title, description or image.
    pub fn without_fetch(url: &str, timeout_ms: u64) -> (r: Option<PageInfo>)
        ensures
            match r {
                Some(p) => offline_page_info(url@, timeout_ms) == Some((p.url@, opt_view(p.embed_html)))
                    && p.title is None && p.description is None && p.image is None,
                None => offline_page_info(url@, timeout_ms) is None,
            },
    {
        let plain = |embed: Option<String>| -> (r: PageInfo)
            ensures
                r.url@ == url@,
                opt_view(r.embed_html) == opt_view(embed),
                r.title is None && r.description is None && r.image is None,
            { PageInfo { url: url.to_owned(), title: None, description: None, image: None, embed_html: embed } };
        if timeout_ms == 0 {
            return Some(plain(None));
        }
        match PageInfo::giphy_embed(url) {
            Some(e) => {
                return Some(plain(Some(e)));
            },
            None => {},
        }
        match PageInfo::gist_embed(url) {
            Some(e) => {
                return Some(plain(Some(e)));
            },
            None => {},
        }
        match MediaEmbed::from_url_and_title(url, "") {
            Some(m) => {
                proof {
                    reveal_strlit("");
                }
                Some(plain(Some(m.to_html(false))))
            },
            None => {
                proof {
                    reveal_strlit("");
                }
                None
            },
        }
    }
}

// ---------------------------------------------------------------------------
// Metadata of a fetched page
// ---------------------------------------------------------------------------

/// For each element of the HTML document `html` matching the CSS selector
/// `selector`, in document order, its attributes `a` and `b` (when present).
pub uninterp spec fn selected_attr_pairs(html: Seq<char>, selector: Seq<char>, a: Seq<char>, b: Seq<char>) -> Seq<
    (Option<Seq<char>>, Option<Seq<char>>),
>;

/// The views of attribute pairs.
pub open spec fn pair_views(v: Seq<(Option<String>, Option<String>)>) -> Seq<(Option<Seq<char>>, Option<Seq<char>>)> {
    v.map_values(|p: (Option<String>, Option<String>)| (opt_view(p.0), opt_view(p.1)))
}

/// Parses `html` (`scraper::Html::parse_document`) and, for each element
/// matching `selector` (`scraper::Selector::parse`, `Html::select`), takes
/// its attributes `a` and `b`. The contract only names the result as a
/// function of the four arguments.
#[verifier::external_body]
fn select_attr_pairs(html: &str, selector: &str, a: &str, b: &str) -> (r: Vec<(Option<String>, Option<String>)>)
    ensures
        pair_views(r@) == selected_attr_pairs(html@, selector@, a@, b@),
{
    let mut out = Vec::new();
    if let Ok(sel) = scraper::Selector::parse(selector) {
        let doc = scraper::Html::parse_document(html);
        for el in doc.select(&sel) {
            out.push((el.value().attr(a).map(|v| v.to_string()), el.value().attr(b).map(|v| v.to_string())));
        }
    }
    out
}

pub const OG_TITLE_SELECTOR: &'static str = "head meta[property='og:title']";
pub const OG_IMAGE_SELECTOR: &'static str = "head meta[property='og:image']";
pub const OG_DESCRIPTION_SELECTOR: &'static str = "head meta[property='og:description']";
pub const TITLE_SELECTOR: &'static str = "head title";
pub const META_DESCRIPTION_SELECTOR: &'static str = "head meta[name='description']";
pub const FAVICON_SELECTOR: &'static str = "head link[rel='icon']";
pub const ALT_FAVICON_SELECTOR: &'static str = "head link[rel='alternate icon']";

/// The `content` attribute of the first element matching `selector`.
pub open spec fn first_content(html: Seq<char>, selector: Seq<char>) -> Option<Seq<char>> {
    let els = selected_elements(html, selector, "content"@);
    if els.len() > 0 {
        els[0].0
    } else {
        None
    }
}

/// The `href` of the first element matching `selector` whose `type` is a
/// supported image type (or absent).
pub open spec fn first_favicon(html: Seq<char>, selector: Seq<char>) -> Option<Seq<char>> {
    let els = selected_attr_pairs(html, selector, "type"@, "href"@);
    match first_supported(els, 0) {
        Some(i) => els[i].1,
        None => None,
    }
}

/// Index of the first pair at or after `i` whose type is supported.
pub open spec fn first_supported(els: Seq<(Option<Seq<char>>, Option<Seq<char>>)>, i: int) -> Option<int>
    decreases els.len() - i,
{
    if i < 0 || i >= els.len() {
        None
    } else if match els[i].0 {
        None => true,
        Some(t) => supported_favicon_type(t),
    } {
        Some(i)
    } else {
        first_supported(els, i + 1)
    }
}

/// The title, description and image [`PageInfo::from_document`] finds in a
/// page: `og:title`, else the non-empty `<title>` text (both escaped for
/// text); `og:description`, else the description meta (escaped); the raw
/// `og:image`, else the first supported favicon, else the first supported
/// alternate favicon.
pub open spec fn document_metadata(html: Seq<char>) -> (Option<Seq<char>>, Option<Seq<char>>, Option<Seq<char>>) {
    let title = match first_content(html, OG_TITLE_SELECTOR@) {
        Some(t) => Some(text_escaped(t)),
        None => {
            let els = selected_elements(html, TITLE_SELECTOR@, ""@);
            if els.len() > 0 && els[0].1.len() > 0 {
                Some(text_escaped(els[0].1))
            } else {
                None
            }
        },
    };
    let description = match first_content(html, OG_DESCRIPTION_SELECTOR@) {
        Some(d) => Some(text_escaped(d)),
        None => match first_content(html, META_DESCRIPTION_SELECTOR@) {
            Some(d) => Some(text_escaped(d)),
            None => None,
        },
    };
    let image = match first_content(html, OG_IMAGE_SELECTOR@) {
        Some(i) => Some(i),
        None => match first_favicon(html, FAVICON_SELECTOR@) {
            Some(f) => Some(f),
            None => first_favicon(html, ALT_FAVICON_SELECTOR@),
        },
    };
    (title, description, image)
}

fn first_content_of(html: &str, selector: &str) -> (r: Option<String>)
    ensures
        opt_view(r) == first_content(html@, selector@),
{
    let els = select_elements(html, selector, "content");
    if els.len() > 0 {
        assert(crate::page_errors::element_views(els@)[0].0 == opt_view(els@[0].0));
        match &els[0].0 {
            Some(c) => Some(c.clone()),
            None => None,
        }
    } else {
        None
    }
}

fn first_favicon_of(html: &str, selector: &str) -> (r: Option<String>)
    ensures
        opt_view(r) == first_favicon(html@, selector@),
{
    let els = select_attr_pairs(html, selector, "type", "href");
    let ghost ev = pair_views(els@);
    let mut i: usize = 0;
    while i < els.len()
        invariant
            ev == pair_views(els@),
            ev == selected_attr_pairs(html@, selector@, "type"@, "href"@),
            i <= els@.len(),
            first_supported(ev, 0) == first_supported(ev, i as int),
        decreases els@.len() - i,
    {
        assert(ev[i as int] == (opt_view(els@[i as int].0), opt_view(els@[i as int].1)));
        let t: Option<&str> = match &els[i].0 {
            Some(x) => Some(x.as_str()),
            None => None,
        };
        if is_supported_favicon_type(t) {
            assert(first_supported(ev, i as int) == Some(i as int));
            return match &els[i].1 {
                Some(h) => Some(h.clone()),
                None => None,
            };
        }
        i += 1;
    }
    None
}

impl PageInfo {
    /// The page info of `url` from the HTML of the fetched page (all
    /// metadata lives in `<head>`): see [`document_metadata`].
    pub fn from_document(url: &str, html: &str) -> (r: PageInfo)
        ensures
            r.url@ == url@,
            (opt_view(r.title), opt_view(r.description), opt_view(r.image)) == document_metadata(html@),
            r.embed_html is None,
    {
        let title = match first_content_of(html, OG_TITLE_SELECTOR) {
            Some(t) => Some(encode_text(t.as_str())),
            None => {
                let els = select_elements(html, TITLE_SELECTOR, "");
                if els.len() > 0 && !els[0].1.as_str().is_empty() {
                    assert(crate::page_errors::element_views(els@)[0].1 == els@[0].1@);
                    Some(encode_text(els[0].1.as_str()))
                } else {
                    assert(els@.len() > 0 ==> crate::page_errors::element_views(els@)[0].1 == els@[0].1@);
                    None
                }
            },
        };
        let description = match first_content_of(html, OG_DESCRIPTION_SELECTOR) {
            Some(d) => Some(encode_text(d.as_str())),
            None => match first_content_of(html, META_DESCRIPTION_SELECTOR) {
                Some(d) => Some(encode_text(d.as_str())),
                None => None,
            },
        };
        let image = match first_content_of(html, OG_IMAGE_SELECTOR) {
            Some(i) => Some(i),
            None => match first_favicon_of(html, FAVICON_SELECTOR) {
                Some(f) => Some(f),
                None => first_favicon_of(html, ALT_FAVICON_SELECTOR),
            },
        };
        let ghost m = document_metadata(html@);
        assert(opt_view(title) == m.0);
        assert(opt_view(description) == m.1);
        assert(opt_view(image) == m.2);
        PageInfo { url: url.to_owned(), title, description, image, embed_html: None }
    }
}

// ---------------------------------------------------------------------------
// Fetching
// ---------------------------------------------------------------------------

/// Maximum bytes of a remote page body read when extracting metadata; all
/// metadata lives in `<head>`, which fits comfortably.
pub const MAX_OEMBED_BODY_BYTES: usize = 524288;

/// Maximum number of HTTP redirects followed when fetching page metadata.
pub const MAX_REDIRECTS: usize = 5;

/// Why fetching a page's metadata failed.
#[derive(Debug, Clone, PartialEq, Eq)]
pub enum OembedError {
    /// The URL (or a redirect target) does not parse.
    InvalidUrl { url: String },
    /// Only `http` and `https` are fetched.
    NonHttpScheme { url: String },
    /// The URL has no host.
    NoHost { url: String },
    /// The host is (or resolves to) an address that must not be fetched.
    DisallowedAddress { detail: String },
    /// The URL has no port and its scheme no default port.
    NoKnownPort { url: String },
    /// DNS resolution failed.
    DnsResolveFailed { domain: String, message: String },
    /// DNS resolution returned no address.
    NoAddressesResolved { domain: String },
    /// More than [`MAX_REDIRECTS`] redirects.
    TooManyRedirects { max: usize, url: String },
    /// A redirect without a `Location` header.
    RedirectWithoutLocation { url: String },
    /// A `Location` header that is not valid text.
    InvalidLocationHeader { url: String },
    /// The site answered with a Cloudflare challenge.
    CloudflareChallenge,
    /// The response is not HTML.
    NonHtmlContentType { content_type: String, url: String },
    /// The request itself failed.
    Request { message: String },
}

/// The parts of an HTTP response head that decide what happens next.
pub struct ResponseHead {
    pub status: u16,
    /// The `Location` header: absent, or present and valid text (`Some`) or
    /// not (`None`).
    pub location: Option<Option<String>>,
    /// The `cf-mitigated` header says `challenge`.
    pub cf_challenge: bool,
    /// The `Content-Type` header as text (empty when it is not valid text).
    pub content_type: Option<String>,
}

/// What to do after receiving a response.
pub enum FetchStep {
    /// Follow the redirect to this location (relative to the current URL);
    /// this is redirect number `redirects`.
    Follow { location: String, redirects: usize },
    /// Read the body and extract metadata.
    Read,
    /// Give up.
    Fail(OembedError),
}

/// A redirect status.
pub open spec fn is_redirect(status: u16) -> bool {
    status == 301 || status == 302 || status == 303 || status == 307 || status == 308
}

/// `p` occurs in `s`.
pub open spec fn contains_seq(s: Seq<char>, p: Seq<char>) -> bool {
    exists|k: int| 0 <= k && k + p.len() <= s.len() && #[trigger] s.subrange(k, k + p.len()) == p
}

/// An HTML content type.
pub open spec fn is_html_content_type(ct: Seq<char>) -> bool {
    contains_seq(ct, "text/html"@) || contains_seq(ct, "application/xhtml+xml"@)
}

fn contains_str(s: &str, p: &str) -> (r: bool)
    ensures
        r == contains_seq(s@, p@),
{
    let v = chars_of(s);
    let w = chars_of(p);
    if w.len() > v.len() {
        return false;
    }
    let vl = v.len();
    let wl = w.len();
    let last = vl - wl;
    let mut k: usize = 0;
    loop
        invariant
            vl == v@.len(),
            wl == w@.len(),
            v@ == s@,
            w@ == p@,
            w@.len() <= v@.len(),
            last == v@.len() - w@.len(),
            k <= last,
            forall|j: int| 0 <= j < k ==> #[trigger] v@.subrange(j, j + w@.len()) != w@,
        decreases last - k,
    {
        let end = k + wl;
        let part = copy_range(&v, k, end);
        if crate::text::chars_eq(&part, &w) {
            return true;
        }
        if k == last {
            assert forall|j: int| 0 <= j && j + p@.len() <= s@.len() implies #[trigger] s@.subrange(j, j + p@.len()) != p@ by {
                assert(j <= k);
            }
            return false;
        }
        k += 1;
    }
}

/// The step after a response for the page `url` currently at `current`,
/// `redirects` redirects in: a redirect is followed (up to
/// [`MAX_REDIRECTS`]) if it has a valid location; otherwise a Cloudflare
/// challenge or a content type that is present and not HTML fails, and
/// anything else is read.
pub open spec fn fetch_step(url: Seq<char>, current: Seq<char>, redirects: usize, head: ResponseHead) -> FetchStepView {
    if is_redirect(head.status) {
        if redirects >= MAX_REDIRECTS {
            FetchStepView::Fail(OembedErrorKind::TooManyRedirects, url)
        } else {
            match head.location {
                None => FetchStepView::Fail(OembedErrorKind::RedirectWithoutLocation, current),
                Some(None) => FetchStepView::Fail(OembedErrorKind::InvalidLocationHeader, current),
                Some(Some(l)) => FetchStepView::Follow(l@, (redirects + 1) as usize),
            }
        }
    } else if head.cf_challenge {
        FetchStepView::Fail(OembedErrorKind::CloudflareChallenge, Seq::empty())
    } else {
        match head.content_type {
            Some(ct) => if is_html_content_type(ct@) {
                FetchStepView::Read
            } else {
                FetchStepView::Fail(OembedErrorKind::NonHtmlContentType, current)
            },
            None => FetchStepView::Read,
        }
    }
}

/// The kind of a fetch failure decided from a response.
pub enum OembedErrorKind {
    TooManyRedirects,
    RedirectWithoutLocation,
    InvalidLocationHeader,
    CloudflareChallenge,
    NonHtmlContentType,
}

/// The value of a [`FetchStep`]: a failure is its kind and the URL it
/// names.
pub enum FetchStepView {
    Follow(Seq<char>, usize),
    Read,
    Fail(OembedErrorKind, Seq<char>),
}

/// The value of a step.
pub open spec fn step_view(s: FetchStep) -> FetchStepView {
    match s {
        FetchStep::Follow { location, redirects } => FetchStepView::Follow(location@, redirects),
        FetchStep::Read => FetchStepView::Read,
        FetchStep::Fail(e) => match e {
            OembedError::TooManyRedirects { max, url } => if max == MAX_REDIRECTS {
                FetchStepView::Fail(OembedErrorKind::TooManyRedirects, url@)
            } else {
                FetchStepView::Read
            },
            OembedError::RedirectWithoutLocation { url } => FetchStepView::Fail(
                OembedErrorKind::RedirectWithoutLocation,
                url@,
            ),
            OembedError::InvalidLocationHeader { url } => FetchStepView::Fail(
                OembedErrorKind::InvalidLocationHeader,
                url@,
            ),
            OembedError::CloudflareChallenge => FetchStepView::Fail(OembedErrorKind::CloudflareChallenge, Seq::empty()),
            OembedError::NonHtmlContentType { content_type, url } => FetchStepView::Fail(
                OembedErrorKind::NonHtmlContentType,
                url@,
            ),
            _ => FetchStepView::Read,
        },
    }
}

/// Decides what to do with a response while fetching the page `url`,
/// currently at `current` after `redirects` redirects (see [`fetch_step`]).
/// A non-HTML failure carries the content type.
pub fn next_fetch_step(url: &str, current: &str, redirects: usize, head: &ResponseHead) -> (r: FetchStep)
    ensures
        step_view(r) == fetch_step(url@, current@, redirects, *head),
        r matches FetchStep::Fail(OembedError::NonHtmlContentType { content_type, url: _ }) ==> head.content_type
            matches Some(ct) && content_type@ == ct@,
{
    let s = head.status;
    if s == 301 || s == 302 || s == 303 || s == 307 || s == 308 {
        if redirects >= MAX_REDIRECTS {
            return FetchStep::Fail(OembedError::TooManyRedirects { max: MAX_REDIRECTS, url: url.to_owned() });
        }
        return match &head.location {
            None => FetchStep::Fail(OembedError::RedirectWithoutLocation { url: current.to_owned() }),
            Some(None) => FetchStep::Fail(OembedError::InvalidLocationHeader { url: current.to_owned() }),
            Some(Some(l)) => FetchStep::Follow { location: l.clone(), redirects: redirects + 1 },
        };
    }
    if head.cf_challenge {
        return FetchStep::Fail(OembedError::CloudflareChallenge);
    }
    match &head.content_type {
        Some(ct) => {
            if contains_str(ct.as_str(), "text/html") || contains_str(ct.as_str(), "application/xhtml+xml") {
                FetchStep::Read
            } else {
                FetchStep::Fail(OembedError::NonHtmlContentType { content_type: ct.clone(), url: current.to_owned() })
            }
        },
        None => FetchStep::Read,
    }
}

/// Only `http` and `https` pages are fetched.
pub fn is_http_scheme(scheme: &str) -> (r: bool)
    ensures
        r == (scheme@ == "http"@ || scheme@ == "https"@),
{
    let v = chars_of(scheme);
    let h = chars_of("http");
    let hs = chars_of("https");
    crate::text::chars_eq(&v, &h) || crate::text::chars_eq(&v, &hs)
}

/// Appends a received chunk of the body, stopping at
/// [`MAX_OEMBED_BODY_BYTES`]: returns whether the cap was reached (and
/// reading should stop). The body is truncated, not rejected.
pub fn append_capped(buf: &mut Vec<u8>, chunk: &[u8]) -> (done: bool)
    requires
        old(buf)@.len() < MAX_OEMBED_BODY_BYTES,
    ensures
        done == (chunk@.len() >= MAX_OEMBED_BODY_BYTES - old(buf)@.len()),
        final(buf)@ == old(buf)@ + if done {
            chunk@.take(MAX_OEMBED_BODY_BYTES - old(buf)@.len())
        } else {
            chunk@
        },
        done ==> final(buf)@.len() == MAX_OEMBED_BODY_BYTES,
        !done ==> final(buf)@.len() < MAX_OEMBED_BODY_BYTES,
{
    let remaining = MAX_OEMBED_BODY_BYTES - buf.len();
    let done = chunk.len() >= remaining;
    let n = if done {
        remaining
    } else {
        chunk.len()
    };
    let ghost start = buf@;
    let mut i: usize = 0;
    while i < n
        invariant
            n <= chunk@.len(),
            i <= n,
            buf@ == start + chunk@.take(i as int),
        decreases n - i,
    {
        buf.push(chunk[i]);
        i += 1;
        assert(buf@ =~= start + chunk@.take(i as int));
    }
    assert(chunk@.take(n as int) =~= if done {
        chunk@.take(remaining as int)
    } else {
        chunk@
    });
    done
}

/// However the body arrives in chunks, it never grows past
/// [`MAX_OEMBED_BODY_BYTES`]: appending to a body under the cap leaves it
/// at most at the cap, and at the cap exactly when reading stops.
pub proof fn law_body_stays_within_cap(buf: Seq<u8>, chunk: Seq<u8>)
    requires
        buf.len() < MAX_OEMBED_BODY_BYTES,
    ensures
        ({
            let done = chunk.len() >= MAX_OEMBED_BODY_BYTES - buf.len();
            let after = buf + if done {
                chunk.take(MAX_OEMBED_BODY_BYTES - buf.len())
            } else {
                chunk
            };
            &&& after.len() <= MAX_OEMBED_BODY_BYTES
            &&& (after.len() == MAX_OEMBED_BODY_BYTES <==> done)
        }),
{
}

// ---------------------------------------------------------------------------
// Addresses
// ---------------------------------------------------------------------------

/// An IPv4 address that may be fetched: not loopback (127/8), unspecified
/// (0.0.0.0), private (10/8, 172.16/12, 192.168/16), link-local
/// (169.254/16) or broadcast (255.255.255.255).
pub open spec fn public_ipv4(o: [u8; 4]) -> bool {
    !(o[0] == 127 || (o[0] == 0 && o[1] == 0 && o[2] == 0 && o[3] == 0) || o[0] == 10 || (o[0] == 172 && 16
        <= o[1] && o[1] <= 31) || (o[0] == 192 && o[1] == 168) || (o[0] == 169 && o[1] == 254) || (o[0]
        == 255 && o[1] == 255 && o[2] == 255 && o[3] == 255))
}

/// Whether an IPv4 address is publicly routable (see [`public_ipv4`]).
pub fn is_public_ipv4(octets: [u8; 4]) -> (r: bool)
    ensures
        r == public_ipv4(octets),
{
    let o = octets;
    !(o[0] == 127 || (o[0] == 0 && o[1] == 0 && o[2] == 0 && o[3] == 0) || o[0] == 10 || (o[0] == 172 && 16
        <= o[1] && o[1] <= 31) || (o[0] == 192 && o[1] == 168) || (o[0] == 169 && o[1] == 254) || (o[0]
        == 255 && o[1] == 255 && o[2] == 255 && o[3] == 255))
}

/// An IPv6 address that may be fetched: an IPv4-mapped address
/// (`::ffff:a.b.c.d`) by the IPv4 rules; otherwise not loopback (`::1`),
/// unspecified (`::`), unique local (`fc00::/7`) or link-local unicast
/// (`fe80::/10`).
pub open spec fn public_ipv6(s: [u16; 8]) -> bool {
    if s[0] == 0 && s[1] == 0 && s[2] == 0 && s[3] == 0 && s[4] == 0 && s[5] == 0xffff {
        public_ipv4([(s[6] / 256) as u8, (s[6] % 256) as u8, (s[7] / 256) as u8, (s[7] % 256) as u8])
    } else {
        let zero_head = s[0] == 0 && s[1] == 0 && s[2] == 0 && s[3] == 0 && s[4] == 0 && s[5] == 0 && s[6] == 0;
        !((zero_head && s[7] == 1) || (zero_head && s[7] == 0) || (0xfc00 <= s[0] && s[0] <= 0xfdff) || (0xfe80
            <= s[0] && s[0] <= 0xfebf))
    }
}

/// Whether an IPv6 address is publicly routable (see [`public_ipv6`]).
pub fn is_public_ipv6(segments: [u16; 8]) -> (r: bool)
    ensures
        r == public_ipv6(segments),
{
    let s = segments;
    if s[0] == 0 && s[1] == 0 && s[2] == 0 && s[3] == 0 && s[4] == 0 && s[5] == 0xffff {
        let a: u8 = (s[6] / 256) as u8;
        let b: u8 = (s[6] % 256) as u8;
        let c: u8 = (s[7] / 256) as u8;
        let d: u8 = (s[7] % 256) as u8;
        let r = is_public_ipv4([a, b, c, d]);
        assert([a, b, c, d] =~= [(s[6] / 256) as u8, (s[6] % 256) as u8, (s[7] / 256) as u8, (s[7] % 256) as u8]);
        r
    } else {
        let zero_head = s[0] == 0 && s[1] == 0 && s[2] == 0 && s[3] == 0 && s[4] == 0 && s[5] == 0 && s[6] == 0;
        !((zero_head && s[7] == 1) || (zero_head && s[7] == 0) || (0xfc00 <= s[0] && s[0] <= 0xfdff) || (0xfe80
            <= s[0] && s[0] <= 0xfebf))
    }
}

// ---------------------------------------------------------------------------
// Laws
// ---------------------------------------------------------------------------

/// `og:description` wins: when the first `meta[property='og:description']`
/// of the head has a `content` value `d`, the page's description is `d`
/// escaped for text, whatever `meta[name='description']` says.
pub proof fn law_og_description_wins(html: Seq<char>, d: Seq<char>)
    requires
        selected_elements(html, OG_DESCRIPTION_SELECTOR@, "content"@).len() > 0,
        selected_elements(html, OG_DESCRIPTION_SELECTOR@, "content"@)[0].0 == Some(d),
    ensures
        document_metadata(html).1 == Some(text_escaped(d)),
{
}

/// Without an `og:description` value, the description is the first
/// `meta[name='description']` content, escaped for text, and absent when
/// there is none.
pub proof fn law_description_falls_back_to_meta(html: Seq<char>)
    requires
        selected_elements(html, OG_DESCRIPTION_SELECTOR@, "content"@).len() == 0
            || selected_elements(html, OG_DESCRIPTION_SELECTOR@, "content"@)[0].0 is None,
    ensures
        selected_elements(html, META_DESCRIPTION_SELECTOR@, "content"@).len() > 0
            && selected_elements(html, META_DESCRIPTION_SELECTOR@, "content"@)[0].0 is Some
            ==> document_metadata(html).1 == Some(
            text_escaped(selected_elements(html, META_DESCRIPTION_SELECTOR@, "content"@)[0].0.unwrap()),
        ),
        !(selected_elements(html, META_DESCRIPTION_SELECTOR@, "content"@).len() > 0
            && selected_elements(html, META_DESCRIPTION_SELECTOR@, "content"@)[0].0 is Some)
            ==> document_metadata(html).1 is None,
{
}

/// `og:title` wins over `<title>`: when the first
/// `meta[property='og:title']` has a `content` value `t`, the page's title
/// is `t` escaped for text.
pub proof fn law_og_title_wins(html: Seq<char>, t: Seq<char>)
    requires
        selected_elements(html, OG_TITLE_SELECTOR@, "content"@).len() > 0,
        selected_elements(html, OG_TITLE_SELECTOR@, "content"@)[0].0 == Some(t),
    ensures
        document_metadata(html).0 == Some(text_escaped(t)),
{
}

/// `og:image` wins over the favicons: when the first
/// `meta[property='og:image']` has a `content` value `i`, the page's image
/// is `i` as written.
pub proof fn law_og_image_wins(html: Seq<char>, i: Seq<char>)
    requires
        selected_elements(html, OG_IMAGE_SELECTOR@, "content"@).len() > 0,
        selected_elements(html, OG_IMAGE_SELECTOR@, "content"@)[0].0 == Some(i),
    ensures
        document_metadata(html).2 == Some(i),
{
}

/// Every redirect status (301, 302, 303, 307 and 308) with a valid
/// `Location` is followed to that location as the next redirect while
/// fewer than [`MAX_REDIRECTS`] have been followed, and fails as too many
/// redirects, naming the page, once that many have.
pub proof fn law_redirects_are_followed(url: Seq<char>, current: Seq<char>, redirects: usize, head: ResponseHead, l: String)
    requires
        head.status == 301 || head.status == 302 || head.status == 303 || head.status == 307
            || head.status == 308,
        head.location == Some(Some(l)),
    ensures
        redirects < MAX_REDIRECTS ==> fetch_step(url, current, redirects, head) == FetchStepView::Follow(
            l@,
            (redirects + 1) as usize,
        ),
        redirects >= MAX_REDIRECTS ==> fetch_step(url, current, redirects, head) == FetchStepView::Fail(
            OembedErrorKind::TooManyRedirects,
            url,
        ),
{
}

/// Only the redirect statuses are followed: any other status is read or
/// fails, whatever `Location` says.
pub proof fn law_only_redirects_are_followed(url: Seq<char>, current: Seq<char>, redirects: usize, head: ResponseHead)
    requires
        !(head.status == 301 || head.status == 302 || head.status == 303 || head.status == 307
            || head.status == 308),
    ensures
        !(fetch_step(url, current, redirects, head) is Follow),
{
}

/// An IPv4-mapped IPv6 address (`::ffff:a.b.c.d`) may be fetched exactly
/// when the IPv4 address `a.b.c.d` may: the mapping cannot smuggle a
/// private address past the IPv4 rules.
pub proof fn law_mapped_ipv6_judged_as_ipv4(a: u8, b: u8, c: u8, d: u8)
    ensures
        public_ipv6(
            [0u16, 0u16, 0u16, 0u16, 0u16, 0xffffu16, ((a as int) * 256 + b) as u16, ((c as int) * 256 + d) as u16],
        ) == public_ipv4([a, b, c, d]),
{
    let hi: u16 = ((a as int) * 256 + b) as u16;
    let lo: u16 = ((c as int) * 256 + d) as u16;
    assert(hi == (a as int) * 256 + b);
    assert(lo == (c as int) * 256 + d);
    assert(hi / 256 == a && hi % 256 == b) by (nonlinear_arith)
        requires
            hi == (a as int) * 256 + b,
            b < 256,
    ;
    assert(lo / 256 == c && lo % 256 == d) by (nonlinear_arith)
        requires
            lo == (c as int) * 256 + d,
            d < 256,
    ;
    let s = [0u16, 0u16, 0u16, 0u16, 0u16, 0xffffu16, hi, lo];
    assert([(s[6] / 256) as u8, (s[6] % 256) as u8, (s[7] / 256) as u8, (s[7] % 256) as u8] =~= [a, b, c, d]);
}

} // verus!
