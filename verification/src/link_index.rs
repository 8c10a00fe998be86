//! Outbound/inbound link records and the URL arithmetic that links rely on.

use vstd::prelude::*;
use crate::text::{
    chars_of, copy_range, find_char, find_char_from, lemma_find_from_bounds, lemma_rfind_bounds, lemma_trim_end_prefix,
    push_all, rfind_char, rfind_char_exec, starts_with, string_of, trim_end, trim_end_len,
};
use crate::url_path::{is_external, is_external_url};
use crate::link_transform::lemma_seg_scan_concat;
pub use crate::link_cache::LinkCache;


verus! {

// ---------------------------------------------------------------------------
// Link records
// ---------------------------------------------------------------------------

/// An outbound link from a markdown page.
#[derive(Debug, Clone, PartialEq, Eq)]
pub struct OutboundLink {
    /// The target URL path (e.g., "/docs/guide/")
    pub to: String,
    /// The link text displayed to users
    pub text: String,
    /// Optional anchor fragment (e.g., "#section")
    pub anchor: Option<String>,
    /// Whether this is an internal link (true) or external (false)
    pub internal: bool,
}

/// An inbound link pointing to a markdown page.
#[derive(Debug, Clone, PartialEq, Eq)]
pub struct InboundLink {
    /// The source page URL path that contains the link
    pub from: String,
    /// The link text used in the source page
    pub text: String,
    /// Optional anchor fragment targeted
    pub anchor: Option<String>,
}

/// Links data for a single page (used in API responses).
#[derive(Debug, Clone)]
pub struct PageLinks {
    /// Links pointing to this page from other pages
    pub inbound: Vec<InboundLink>,
    /// Links from this page to other pages
    pub outbound: Vec<OutboundLink>,
}

impl PageLinks {
    /// No inbound and no outbound links.
    pub fn new() -> (r: Self)
        ensures
            r.inbound@.len() == 0,
            r.outbound@.len() == 0,
    {
        PageLinks { inbound: Vec::new(), outbound: Vec::new() }
    }
}

impl Default for PageLinks {
    fn default() -> (r: Self)
        ensures
            r.inbound@.len() == 0,
            r.outbound@.len() == 0,
    {
        PageLinks::new()
    }
}

/// The characters of an optional string.
pub open spec fn opt_view(o: Option<String>) -> Option<Seq<char>> {
    match o {
        Some(s) => Some(s@),
        None => None,
    }
}

/// The abstract content of an [`OutboundLink`].
pub struct OutboundLinkView {
    pub to: Seq<char>,
    pub text: Seq<char>,
    pub anchor: Option<Seq<char>>,
    pub internal: bool,
}

impl View for OutboundLink {
    type V = OutboundLinkView;

    open spec fn view(&self) -> OutboundLinkView {
        OutboundLinkView {
            to: self.to@,
            text: self.text@,
            anchor: opt_view(self.anchor),
            internal: self.internal,
        }
    }
}

/// The abstract content of an [`InboundLink`].
pub struct InboundLinkView {
    pub from: Seq<char>,
    pub text: Seq<char>,
    pub anchor: Option<Seq<char>>,
}

impl View for InboundLink {
    type V = InboundLinkView;

    open spec fn view(&self) -> InboundLinkView {
        InboundLinkView { from: self.from@, text: self.text@, anchor: opt_view(self.anchor) }
    }
}

// ---------------------------------------------------------------------------
// URL segments
// ---------------------------------------------------------------------------

/// Left-to-right scan over `s` splitting at `/`: the completed non-empty
/// segments and the segment still being read.
pub open spec fn seg_scan(s: Seq<char>) -> (Seq<Seq<char>>, Seq<char>)
    decreases s.len(),
{
    if s.len() == 0 {
        (Seq::empty(), Seq::empty())
    } else {
        let prev = seg_scan(s.drop_last());
        if s.last() == '/' {
            (if prev.1.len() > 0 {
                prev.0.push(prev.1)
            } else {
                prev.0
            }, Seq::empty())
        } else {
            (prev.0, prev.1.push(s.last()))
        }
    }
}

/// The non-empty `/`-separated segments of `s`, in order
/// (`s.split('/').filter(|p| !p.is_empty())`).
pub open spec fn segments(s: Seq<char>) -> Seq<Seq<char>> {
    let sc = seg_scan(s);
    if sc.1.len() > 0 {
        sc.0.push(sc.1)
    } else {
        sc.0
    }
}

/// The directory-style URL `/a/b/` naming the segments `[a, b]` (`/` when
/// there are none).
pub open spec fn dir_url(segs: Seq<Seq<char>>) -> Seq<char>
    decreases segs.len(),
{
    if segs.len() == 0 {
        seq!['/']
    } else {
        dir_url(segs.drop_last()) + segs.last() + seq!['/']
    }
}

/// One relative-path step: `.` stays, `..` climbs (clamped at the root),
/// anything else descends.
pub open spec fn step_clamped(segs: Seq<Seq<char>>, part: Seq<char>) -> Seq<Seq<char>> {
    if part == seq!['.'] {
        segs
    } else if part == seq!['.', '.'] {
        if segs.len() > 0 {
            segs.drop_last()
        } else {
            segs
        }
    } else {
        segs.push(part)
    }
}

/// Applies the relative-path steps `parts` to the directory `segs`, clamping
/// `..` at the root the way a browser does (RFC 3986 §5.2.4).
pub open spec fn apply_clamped(segs: Seq<Seq<char>>, parts: Seq<Seq<char>>) -> Seq<Seq<char>>
    decreases parts.len(),
{
    if parts.len() == 0 {
        segs
    } else {
        step_clamped(apply_clamped(segs, parts.drop_last()), parts.last())
    }
}

/// Like [`apply_clamped`], but `None` as soon as a `..` would climb above
/// the root.
pub open spec fn apply_checked(segs: Seq<Seq<char>>, parts: Seq<Seq<char>>) -> Option<
    Seq<Seq<char>>,
>
    decreases parts.len(),
{
    if parts.len() == 0 {
        Some(segs)
    } else {
        match apply_checked(segs, parts.drop_last()) {
            None => None,
            Some(cur) => {
                let part = parts.last();
                if part == seq!['.', '.'] && cur.len() == 0 {
                    None
                } else {
                    Some(step_clamped(cur, part))
                }
            },
        }
    }
}

/// The directory a relative link on the page at `base` is resolved in: for
/// an index page every segment of its URL, otherwise all but the last (the
/// file stem).
pub open spec fn link_base_dir(base: Seq<char>, is_index_file: bool) -> Seq<Seq<char>> {
    let b = segments(base);
    if is_index_file || b.len() == 0 {
        b
    } else {
        b.drop_last()
    }
}

/// What [`resolve_relative_url`] returns.
pub open spec fn resolved_url(base: Seq<char>, rel: Seq<char>, is_index_file: bool) -> Seq<char> {
    if starts_with(rel, seq!['/']) {
        let t = trim_end(rel, '/');
        if t.len() == 0 {
            seq!['/']
        } else {
            t.push('/')
        }
    } else if starts_with(rel, seq!['#']) {
        rel
    } else {
        dir_url(apply_clamped(link_base_dir(base, is_index_file), segments(rel)))
    }
}

/// What [`resolve_relative_url_checked`] returns.
pub open spec fn resolved_url_checked(base: Seq<char>, rel: Seq<char>, is_index_file: bool) -> Option<
    Seq<char>,
> {
    if starts_with(rel, seq!['/']) || starts_with(rel, seq!['#']) {
        Some(resolved_url(base, rel, is_index_file))
    } else {
        match apply_checked(link_base_dir(base, is_index_file), segments(rel)) {
            Some(segs) => Some(dir_url(segs)),
            None => None,
        }
    }
}

/// The characters of each string.
pub open spec fn vec_views(v: Seq<Vec<char>>) -> Seq<Seq<char>> {
    v.map_values(|x: Vec<char>| x@)
}

/// The views of a list with one more vector pushed.
pub proof fn lemma_vec_views_push(v: Seq<Vec<char>>, x: Vec<char>)
    ensures
        vec_views(v.push(x)) == vec_views(v).push(x@),
{
    assert(vec_views(v.push(x)) =~= vec_views(v).push(x@));
}

proof fn lemma_vec_views_drop_last(v: Seq<Vec<char>>)
    requires
        v.len() > 0,
    ensures
        vec_views(v.drop_last()) == vec_views(v).drop_last(),
{
    assert(vec_views(v.drop_last()) =~= vec_views(v).drop_last());
}

/// The non-empty `/`-separated segments of `s`.
pub fn segments_exec(s: &[char]) -> (r: Vec<Vec<char>>)
    ensures
        vec_views(r@) == segments(s@),
{
    let mut done: Vec<Vec<char>> = Vec::new();
    let mut cur: Vec<char> = Vec::new();
    let mut i: usize = 0;
    assert(vec_views(done@) =~= Seq::<Seq<char>>::empty());
    while i < s.len()
        invariant
            i <= s@.len(),
            (vec_views(done@), cur@) == seg_scan(s@.take(i as int)),
        decreases s@.len() - i,
    {
        let c = s[i];
        assert(s@.take(i + 1).drop_last() =~= s@.take(i as int));
        if c == '/' {
            if cur.len() > 0 {
                proof {
                    lemma_vec_views_push(done@, cur);
                }
                done.push(cur);
            }
            cur = Vec::new();
        } else {
            cur.push(c);
        }
        i += 1;
    }
    assert(s@.take(s@.len() as int) =~= s@);
    if cur.len() > 0 {
        proof {
            lemma_vec_views_push(done@, cur);
        }
        done.push(cur);
    }
    done
}

/// The directory-style URL naming `segs`.
pub fn dir_url_exec(segs: &Vec<Vec<char>>) -> (r: Vec<char>)
    ensures
        r@ == dir_url(vec_views(segs@)),
{
    let mut r: Vec<char> = Vec::new();
    r.push('/');
    let mut i: usize = 0;
    let ghost vs = vec_views(segs@);
    while i < segs.len()
        invariant
            vs == vec_views(segs@),
            i <= segs@.len(),
            r@ == dir_url(vs.take(i as int)),
        decreases segs@.len() - i,
    {
        assert(vs.take(i + 1).drop_last() =~= vs.take(i as int));
        assert(vs.take(i + 1).last() == segs@[i as int]@);
        push_all(&mut r, segs[i].as_slice());
        r.push('/');
        i += 1;
    }
    assert(vs.take(segs@.len() as int) =~= vs);
    r
}

fn is_dot(p: &[char]) -> (r: bool)
    ensures
        r == (p@ == seq!['.']),
{
    let r = p.len() == 1 && p[0] == '.';
    if r {
        assert(p@ =~= seq!['.']);
    }
    r
}

fn is_dot_dot(p: &[char]) -> (r: bool)
    ensures
        r == (p@ == seq!['.', '.']),
{
    let r = p.len() == 2 && p[0] == '.' && p[1] == '.';
    if r {
        assert(p@ =~= seq!['.', '.']);
    }
    r
}

/// Applies `parts` to `segs` with `..` clamped at the root; `escaped`
/// reports whether any `..` had to be clamped.
fn apply_parts_exec(segs: Vec<Vec<char>>, parts: &Vec<Vec<char>>) -> (r: (Vec<Vec<char>>, bool))
    ensures
        vec_views(r.0@) == apply_clamped(vec_views(segs@), vec_views(parts@)),
        r.1 == (apply_checked(vec_views(segs@), vec_views(parts@)) is None),
        !r.1 ==> apply_checked(vec_views(segs@), vec_views(parts@)) == Some(vec_views(r.0@)),
{
    let ghost start = vec_views(segs@);
    let ghost ps = vec_views(parts@);
    let mut cur = segs;
    let mut escaped = false;
    let mut i: usize = 0;
    while i < parts.len()
        invariant
            ps == vec_views(parts@),
            i <= parts@.len(),
            vec_views(cur@) == apply_clamped(start, ps.take(i as int)),
            escaped == (apply_checked(start, ps.take(i as int)) is None),
            !escaped ==> apply_checked(start, ps.take(i as int)) == Some(vec_views(cur@)),
        decreases parts@.len() - i,
    {
        assert(ps.take(i + 1).drop_last() =~= ps.take(i as int));
        assert(ps.take(i + 1).last() == parts@[i as int]@);
        let part = &parts[i];
        if is_dot(part.as_slice()) {
        } else if is_dot_dot(part.as_slice()) {
            if cur.len() > 0 {
                proof {
                    lemma_vec_views_drop_last(cur@);
                }
                cur.pop();
            } else {
                escaped = true;
            }
        } else {
            let c = part.clone();
            assert(c@ =~= part@);
            proof {
                lemma_vec_views_push(cur@, c);
            }
            cur.push(c);
        }
        i += 1;
    }
    assert(ps.take(parts@.len() as int) =~= ps);
    (cur, escaped)
}

/// The starting directory for relative resolution against `base`.
fn link_base_dir_exec(base: &[char], is_index_file: bool) -> (r: Vec<Vec<char>>)
    ensures
        vec_views(r@) == link_base_dir(base@, is_index_file),
{
    let mut b = segments_exec(base);
    if !is_index_file && b.len() > 0 {
        proof {
            lemma_vec_views_drop_last(b@);
        }
        b.pop();
    }
    b
}

fn resolve_chars(base: &[char], rel: &[char], is_index_file: bool) -> (r: (Vec<char>, bool))
    ensures
        r.0@ == resolved_url(base@, rel@, is_index_file),
        r.1 == (resolved_url_checked(base@, rel@, is_index_file) is None),
        !r.1 ==> resolved_url_checked(base@, rel@, is_index_file) == Some(r.0@),
{
    if rel.len() > 0 && rel[0] == '/' {
        assert(starts_with(rel@, seq!['/'])) by {
            assert(rel@.take(1) =~= seq!['/']);
        }
        let n = trim_end_len(rel, '/');
        let mut t = copy_range(rel, 0, n);
        if t.len() == 0 {
            return (vec!['/'], false);
        }
        t.push('/');
        return (t, false);
    }
    assert(!starts_with(rel@, seq!['/'])) by {
        if starts_with(rel@, seq!['/']) {
            assert(rel@.take(1)[0] == '/');
        }
    }
    if rel.len() > 0 && rel[0] == '#' {
        assert(starts_with(rel@, seq!['#'])) by {
            assert(rel@.take(1) =~= seq!['#']);
        }
        return (copy_range(rel, 0, rel.len()), false);
    }
    assert(!starts_with(rel@, seq!['#'])) by {
        if starts_with(rel@, seq!['#']) {
            assert(rel@.take(1)[0] == '#');
        }
    }
    let dir = link_base_dir_exec(base, is_index_file);
    let parts = segments_exec(rel);
    let (segs, escaped) = apply_parts_exec(dir, &parts);
    (dir_url_exec(&segs), escaped)
}

/// Resolves a relative URL against a base URL path.
///
/// Markdown-level semantics: a link like `foo.md` in `X.md` means "sibling
/// file of X.md". For a non-index page (`/docs/guide/`) the last URL segment
/// is the file stem, so relative links resolve against its parent; for an
/// index page the URL already names the directory. Absolute links are
/// normalized to a trailing slash and anchor-only links are returned as is.
pub fn resolve_relative_url(base_url: &str, relative_url: &str, is_index_file: bool) -> (r: String)
    ensures
        r@ == resolved_url(base_url@, relative_url@, is_index_file),
{
    let base = chars_of(base_url);
    let rel = chars_of(relative_url);
    let (out, _) = resolve_chars(&base, &rel, is_index_file);
    string_of(&out)
}

/// Like [`resolve_relative_url`], but `None` when a `..` climbs above the
/// repository root instead of clamping it there.
pub fn resolve_relative_url_checked(base_url: &str, relative_url: &str, is_index_file: bool) -> (r:
    Option<String>)
    ensures
        match r {
            Some(s) => resolved_url_checked(base_url@, relative_url@, is_index_file) == Some(s@),
            None => resolved_url_checked(base_url@, relative_url@, is_index_file) is None,
        },
{
    let base = chars_of(base_url);
    let rel = chars_of(relative_url);
    let (out, escaped) = resolve_chars(&base, &rel, is_index_file);
    if escaped {
        None
    } else {
        Some(string_of(&out))
    }
}

// ---------------------------------------------------------------------------
// Anchors, internal links, normalization
// ---------------------------------------------------------------------------

/// `s` up to (not including) its first `c`, or all of `s`.
pub open spec fn before_char(s: Seq<char>, c: char) -> Seq<char> {
    match find_char(s, c) {
        Some(k) => s.take(k),
        None => s,
    }
}

/// What [`split_url_anchor`] returns: the part before the first `#`, and
/// the anchor from that `#` on.
pub open spec fn url_anchor_split(url: Seq<char>) -> (Seq<char>, Option<Seq<char>>) {
    match find_char(url, '#') {
        Some(k) => (url.take(k), Some(url.skip(k))),
        None => (url, None),
    }
}

/// Splitting a URL at its anchor loses nothing: the path and the anchor
/// (its `#` included) put back together are the URL, the path holds no
/// `#`, and an anchor starts with one.
pub proof fn law_split_url_anchor_rejoins(url: Seq<char>)
    ensures
        url_anchor_split(url).0 + match url_anchor_split(url).1 {
            Some(a) => a,
            None => Seq::empty(),
        } == url,
        !url_anchor_split(url).0.contains('#'),
        url_anchor_split(url).1 matches Some(a) ==> a.len() > 0 && a[0] == '#',
{
    lemma_find_from_bounds(url, '#', 0);
    match find_char(url, '#') {
        Some(k) => {
            assert(url.take(k) + url.skip(k) =~= url);
            assert(!url.take(k).contains('#')) by {
                if url.take(k).contains('#') {
                    let j = choose|j: int| 0 <= j < url.take(k).len() && url.take(k)[j] == '#';
                    assert(url[j] == '#');
                }
            }
        },
        None => {
            assert(url + Seq::<char>::empty() =~= url);
            assert(!url.contains('#')) by {
                if url.contains('#') {
                    let j = choose|j: int| 0 <= j < url.len() && url[j] == '#';
                    assert(url[j] == '#');
                }
            }
        },
    }
}

/// Splits a URL into its path and anchor components.
pub fn split_url_anchor(url: &str) -> (r: (String, Option<String>))
    ensures
        r.0@ == url_anchor_split(url@).0,
        opt_view(r.1) == url_anchor_split(url@).1,
{
    let v = chars_of(url);
    match find_char_from(&v, '#', 0) {
        Some(k) => {
            proof {
                lemma_find_from_bounds(v@, '#', 0);
            }
            let path = copy_range(&v, 0, k);
            let anchor = copy_range(&v, k, v.len());
            assert(v@.subrange(k as int, v@.len() as int) =~= v@.skip(k as int));
            (string_of(&path), Some(string_of(&anchor)))
        },
        None => (string_of(&v), None),
    }
}

/// Determines if a URL is an internal link: relative paths, absolute paths
/// starting with `/`, and fragment-/query-only references. Anything carrying
/// a URL scheme (or a protocol-relative `//host`) is external.
pub fn is_internal_link(url: &str) -> (r: bool)
    ensures
        r == !is_external(url@),
{
    !is_external_url(url)
}

/// The last `/`-separated component of `p` (`p.rsplit('/').next()`).
pub open spec fn last_component(p: Seq<char>) -> Seq<char> {
    match rfind_char(p, '/') {
        Some(k) => p.skip(k + 1),
        None => p,
    }
}

/// The path part of a URL: before its query string and anchor.
pub open spec fn url_path_part(url: Seq<char>) -> Seq<char> {
    before_char(before_char(url, '?'), '#')
}

/// The segments a URL path names once `.` and `..` are resolved (`..`
/// stopping at the root) and empty segments dropped.
pub open spec fn resolved_segments(url: Seq<char>) -> Seq<Seq<char>> {
    apply_clamped(Seq::empty(), segments(url_path_part(url)))
}

/// A file-style last segment: it has a `.` and does not start with one.
pub open spec fn file_like(seg: Seq<char>) -> bool {
    seg.contains('.') && !(seg.len() > 0 && seg[0] == '.')
}

/// What [`normalize_url_path`] returns: the resolved segments joined by
/// `/`, with a leading `/` when the path had one and a trailing `/` unless
/// the last segment looks like a file; `/` when no segment is left.
pub open spec fn normalized_url_path(url: Seq<char>) -> Seq<char> {
    let segs = resolved_segments(url);
    if segs.len() == 0 {
        seq!['/']
    } else {
        let d = dir_url(segs);
        let body = if starts_with(url_path_part(url), seq!['/']) {
            d
        } else {
            d.drop_first()
        };
        if file_like(segs.last()) {
            body.drop_last()
        } else {
            body
        }
    }
}

/// A copy of `s` up to its first `c`.
fn before_char_exec(s: &[char], c: char) -> (r: Vec<char>)
    ensures
        r@ == before_char(s@, c),
{
    match find_char_from(s, c, 0) {
        Some(k) => {
            proof {
                lemma_find_from_bounds(s@, c, 0);
            }
            copy_range(s, 0, k)
        },
        None => {
            let r = copy_range(s, 0, s.len());
            assert(r@ =~= s@);
            r
        },
    }
}

/// Normalizes a URL path for consistent comparison: drops the query string
/// and anchor, resolves `.` and `..` components (stopping at the root),
/// and ensures a trailing slash for directory-style paths (those whose last
/// component has no file extension).
pub fn normalize_url_path(url: &str) -> (r: String)
    ensures
        r@ == normalized_url_path(url@),
{
    let v = chars_of(url);
    let q = before_char_exec(&v, '?');
    let h = before_char_exec(&q, '#');
    let parts = segments_exec(&h);
    let start: Vec<Vec<char>> = Vec::new();
    assert(vec_views(start@) =~= Seq::<Seq<char>>::empty());
    let (segs, _) = apply_parts_exec(start, &parts);
    if segs.len() == 0 {
        return string_of(&['/']);
    }
    let ghost sv = vec_views(segs@);
    let d = dir_url_exec(&segs);
    proof {
        lemma_dir_url_shape(sv);
        lemma_dir_url_shape(sv.drop_last());
    }
    let lead = h.len() > 0 && h[0] == '/';
    assert(lead == starts_with(h@, seq!['/'])) by {
        if h@.len() > 0 {
            assert(h@.take(1) =~= seq![h@[0]]);
        }
    }
    let body = if lead {
        d
    } else {
        let b = copy_range(&d, 1, d.len());
        assert(b@ =~= d@.drop_first());
        b
    };
    let last = &segs[segs.len() - 1];
    assert(last@ == sv.last());
    let has_dot = match find_char_from(last, '.', 0) {
        Some(_) => true,
        None => false,
    };
    proof {
        lemma_find_from_bounds(last@, '.', 0);
        if has_dot {
            let k = find_char(last@, '.')->0;
            assert(last@[k] == '.');
        }
    }
    assert(has_dot == last@.contains('.'));
    let hidden = last.len() > 0 && last[0] == '.';
    if has_dot && !hidden {
        let r = copy_range(&body, 0, body.len() - 1);
        assert(r@ =~= body@.drop_last());
        string_of(&r)
    } else {
        string_of(&body)
    }
}

/// `dir_url` starts and ends with `/`, and adds each segment and a `/`.
pub(crate) proof fn lemma_dir_url_shape(segs: Seq<Seq<char>>)
    ensures
        dir_url(segs).len() >= 1 + segs.len(),
        dir_url(segs)[0] == '/',
        dir_url(segs).last() == '/',
        segs.len() > 0 ==> dir_url(segs) == dir_url(segs.drop_last()) + segs.last() + seq!['/'],
    decreases segs.len(),
{
    if segs.len() > 0 {
        lemma_dir_url_shape(segs.drop_last());
    }
}

/// The part of `s` before its first `c` is a prefix of `s` without `c`,
/// and all of `s` when `s` has no `c`.
proof fn lemma_before_char(s: Seq<char>, c: char)
    ensures
        before_char(s, c) == s.take(before_char(s, c).len() as int),
        before_char(s, c).len() <= s.len(),
        !before_char(s, c).contains(c),
        !s.contains(c) ==> before_char(s, c) == s,
{
    lemma_find_from_bounds(s, c, 0);
    match find_char(s, c) {
        Some(k) => {
            assert(s[k] == c);
            assert(!s.take(k).contains(c)) by {
                if s.take(k).contains(c) {
                    let j = choose|j: int| 0 <= j < s.take(k).len() && s.take(k)[j] == c;
                    assert(s[j] == c);
                }
            }
        },
        None => {
            assert(s.take(s.len() as int) =~= s);
            assert(!s.contains(c)) by {
                if s.contains(c) {
                    let j = choose|j: int| 0 <= j < s.len() && s[j] == c;
                    assert(s[j] == c);
                }
            }
        },
    }
}

/// A prefix of a text without `c` has no `c` either.
proof fn lemma_prefix_lacks(s: Seq<char>, k: int, c: char)
    requires
        0 <= k <= s.len(),
        !s.contains(c),
    ensures
        !s.take(k).contains(c),
{
    if s.take(k).contains(c) {
        let j = choose|j: int| 0 <= j < s.take(k).len() && s.take(k)[j] == c;
        assert(s[j] == c);
    }
}

/// A resolved segment: not empty, not `.` or `..`, and without `/`, `?`
/// or `#`.
pub open spec fn clean_segment(seg: Seq<char>) -> bool {
    &&& seg.len() > 0
    &&& !seg.contains('/')
    &&& !seg.contains('?')
    &&& !seg.contains('#')
    &&& seg != seq!['.']
    &&& seg != seq!['.', '.']
}

/// Splitting `s` gives non-empty segments without `/`, and none holds a
/// character `s` lacks.
proof fn lemma_seg_scan_props(s: Seq<char>, c: char)
    ensures
        forall|i: int| 0 <= i < seg_scan(s).0.len() ==> #[trigger] seg_scan(s).0[i].len() > 0 && !seg_scan(s).0[i].contains('/')
            && (!s.contains(c) ==> !seg_scan(s).0[i].contains(c)),
        !seg_scan(s).1.contains('/'),
        !s.contains(c) ==> !seg_scan(s).1.contains(c),
    decreases s.len(),
{
    if s.len() > 0 {
        let init = s.drop_last();
        lemma_seg_scan_props(init, c);
        assert(!s.contains(c) ==> !init.contains(c)) by {
            if !s.contains(c) && init.contains(c) {
                let j = choose|j: int| 0 <= j < init.len() && init[j] == c;
                assert(s[j] == c);
            }
        }
        let prev = seg_scan(init);
        if s.last() != '/' {
            assert(!prev.1.push(s.last()).contains('/')) by {
                if prev.1.push(s.last()).contains('/') {
                    let j = choose|j: int| 0 <= j < prev.1.push(s.last()).len() && prev.1.push(s.last())[j] == '/';
                    if j < prev.1.len() {
                        assert(prev.1[j] == '/');
                    }
                }
            }
            assert(!s.contains(c) ==> !prev.1.push(s.last()).contains(c)) by {
                if !s.contains(c) && prev.1.push(s.last()).contains(c) {
                    let j = choose|j: int| 0 <= j < prev.1.push(s.last()).len() && prev.1.push(s.last())[j] == c;
                    if j < prev.1.len() {
                        assert(prev.1[j] == c);
                    } else {
                        assert(s[s.len() - 1] == c);
                    }
                }
            }
        }
        assert(!Seq::<char>::empty().contains('/'));
        assert(!Seq::<char>::empty().contains(c));
    }
}

/// Resolving steps from clean segments keeps them clean, when no step
/// holds `/`, `?` or `#`.
proof fn lemma_apply_clean(segs: Seq<Seq<char>>, parts: Seq<Seq<char>>)
    requires
        forall|i: int| 0 <= i < segs.len() ==> clean_segment(#[trigger] segs[i]),
        forall|i: int| 0 <= i < parts.len() ==> #[trigger] parts[i].len() > 0 && !parts[i].contains('/')
            && !parts[i].contains('?') && !parts[i].contains('#'),
    ensures
        forall|i: int| 0 <= i < apply_clamped(segs, parts).len() ==> clean_segment(#[trigger] apply_clamped(segs, parts)[i]),
    decreases parts.len(),
{
    if parts.len() > 0 {
        lemma_apply_clean(segs, parts.drop_last());
        assert(parts.drop_last().len() < parts.len());
        let cur = apply_clamped(segs, parts.drop_last());
        let last = parts[parts.len() - 1];
        assert(parts.last() == last);
    }
}

/// Clean segments resolve to themselves.
pub(crate) proof fn lemma_apply_clean_identity(segs: Seq<Seq<char>>)
    requires
        forall|i: int| 0 <= i < segs.len() ==> clean_segment(#[trigger] segs[i]),
    ensures
        apply_clamped(Seq::empty(), segs) == segs,
    decreases segs.len(),
{
    if segs.len() > 0 {
        lemma_apply_clean_identity(segs.drop_last());
        assert(clean_segment(segs[segs.len() - 1]));
        assert(segs.drop_last().push(segs.last()) =~= segs);
    }
}

/// A segment without `/` scans as one unfinished segment.
pub(crate) proof fn lemma_seg_scan_plain(x: Seq<char>)
    requires
        !x.contains('/'),
    ensures
        seg_scan(x) == (Seq::<Seq<char>>::empty(), x),
    decreases x.len(),
{
    if x.len() > 0 {
        assert(!x.drop_last().contains('/')) by {
            if x.drop_last().contains('/') {
                let j = choose|j: int| 0 <= j < x.drop_last().len() && x.drop_last()[j] == '/';
                assert(x[j] == '/');
            }
        }
        lemma_seg_scan_plain(x.drop_last());
        assert(x[x.len() - 1] != '/');
        assert(x.drop_last().push(x.last()) =~= x);
    } else {
        assert(x =~= Seq::<char>::empty());
    }
}

/// Splitting `dir_url(segs)` gives back clean `segs`; without its final `/`
/// it ends inside the last segment; and its second character begins the
/// first segment.
pub(crate) proof fn lemma_dir_url_scan(segs: Seq<Seq<char>>)
    requires
        forall|i: int| 0 <= i < segs.len() ==> clean_segment(#[trigger] segs[i]),
    ensures
        seg_scan(dir_url(segs)) == (segs, Seq::<char>::empty()),
        segs.len() > 0 ==> seg_scan(dir_url(segs).drop_last()) == (segs.drop_last(), segs.last()),
        segs.len() > 0 ==> dir_url(segs).len() >= 3 && dir_url(segs)[1] == segs[0][0],
        !dir_url(segs).contains('?'),
        !dir_url(segs).contains('#'),
    decreases segs.len(),
{
    lemma_dir_url_shape(segs);
    if segs.len() == 0 {
        assert(seq!['/'].drop_last() =~= Seq::<char>::empty());
        assert(seq!['/'].last() == '/');
        assert(seg_scan(Seq::<char>::empty()) == (Seq::<Seq<char>>::empty(), Seq::<char>::empty()));
        assert(seg_scan(seq!['/']) == (Seq::<Seq<char>>::empty(), Seq::<char>::empty()));
        assert(!seq!['/'].contains('?')) by {
            if seq!['/'].contains('?') {
                let j = choose|j: int| 0 <= j < 1 && seq!['/'][j] == '?';
            }
        }
        assert(!seq!['/'].contains('#')) by {
            if seq!['/'].contains('#') {
                let j = choose|j: int| 0 <= j < 1 && seq!['/'][j] == '#';
            }
        }
    } else {
        let init = segs.drop_last();
        let last = segs.last();
        assert(clean_segment(segs[segs.len() - 1]));
        lemma_dir_url_scan(init);
        lemma_dir_url_shape(init);
        let di = dir_url(init);
        lemma_seg_scan_plain(last);
        lemma_seg_scan_concat(di, last);
        assert(dir_url(segs).drop_last() =~= di + last);
        let tail = last.push('/');
        assert(tail.drop_last() =~= last);
        assert(seg_scan(tail) == (seq![last], Seq::<char>::empty()));
        assert(dir_url(segs) =~= di + tail);
        lemma_seg_scan_concat(di, tail);
        assert(init + seq![last] =~= segs);
        assert(init.len() > 0 ==> clean_segment(init[0]));
        if init.len() == 0 {
            assert(di =~= seq!['/']);
            assert(dir_url(segs)[1] == last[0]);
        } else {
            assert(dir_url(segs)[1] == di[1]);
            assert(segs[0] == init[0]);
        }
        assert(!dir_url(segs).contains('?')) by {
            if dir_url(segs).contains('?') {
                let j = choose|j: int| 0 <= j < dir_url(segs).len() && dir_url(segs)[j] == '?';
                if j < di.len() {
                    assert(di[j] == '?');
                } else if j < di.len() + last.len() {
                    assert(last[j - di.len()] == '?');
                }
            }
        }
        assert(!dir_url(segs).contains('#')) by {
            if dir_url(segs).contains('#') {
                let j = choose|j: int| 0 <= j < dir_url(segs).len() && dir_url(segs)[j] == '#';
                if j < di.len() {
                    assert(di[j] == '#');
                } else if j < di.len() + last.len() {
                    assert(last[j - di.len()] == '#');
                }
            }
        }
    }
}

/// A leading `/` does not change how a path splits.
pub(crate) proof fn lemma_seg_scan_slash(x: Seq<char>)
    ensures
        seg_scan(seq!['/'] + x) == seg_scan(x),
{
    assert(seq!['/'].drop_last() =~= Seq::<char>::empty());
    assert(seq!['/'].last() == '/');
    assert(seg_scan(Seq::<char>::empty()) == (Seq::<Seq<char>>::empty(), Seq::<char>::empty()));
    assert(seg_scan(seq!['/']) == (Seq::<Seq<char>>::empty(), Seq::<char>::empty()));
    lemma_seg_scan_concat(seq!['/'], x);
    assert(Seq::<Seq<char>>::empty() + seg_scan(x).0 =~= seg_scan(x).0);
}

/// A sequence without `c` stays without it after dropping an end.
proof fn lemma_lacks_sub(s: Seq<char>, c: char)
    requires
        !s.contains(c),
        s.len() > 0,
    ensures
        !s.drop_first().contains(c),
        !s.drop_last().contains(c),
{
    if s.drop_first().contains(c) {
        let j = choose|j: int| 0 <= j < s.drop_first().len() && s.drop_first()[j] == c;
        assert(s[j + 1] == c);
    }
    if s.drop_last().contains(c) {
        let j = choose|j: int| 0 <= j < s.drop_last().len() && s.drop_last()[j] == c;
        assert(s[j] == c);
    }
}

/// Normalizing a normalized URL path changes nothing: every URL has one
/// normal form, which [`normalize_url_path`] returns as it is.
pub proof fn law_normalize_url_path_idempotent(url: Seq<char>)
    ensures
        normalized_url_path(normalized_url_path(url)) == normalized_url_path(url),
{
    let q = before_char(url, '?');
    let h = before_char(q, '#');
    lemma_before_char(url, '?');
    lemma_before_char(q, '#');
    lemma_prefix_lacks(q, h.len() as int, '?');
    assert(h == url_path_part(url));
    lemma_seg_scan_props(h, '?');
    lemma_seg_scan_props(h, '#');
    let parts = segments(h);
    assert forall|i: int| 0 <= i < parts.len() implies #[trigger] parts[i].len() > 0 && !parts[i].contains('/')
        && !parts[i].contains('?') && !parts[i].contains('#') by {
        let sc = seg_scan(h);
        if i < sc.0.len() {
            assert(parts[i] == sc.0[i]);
        } else {
            assert(parts[i] == sc.1);
        }
    }
    lemma_apply_clean(Seq::empty(), parts);
    let segs = resolved_segments(url);
    lemma_apply_clean_identity(segs);
    lemma_dir_url_scan(segs);
    let n = normalized_url_path(url);
    if segs.len() == 0 {
        assert(n == seq!['/']);
        lemma_dir_url_scan(Seq::<Seq<char>>::empty());
        assert(dir_url(Seq::<Seq<char>>::empty()) == seq!['/']);
        lemma_before_char(n, '?');
        lemma_before_char(n, '#');
        assert(url_path_part(n) == n);
        assert(segments(n) =~= Seq::<Seq<char>>::empty());
    } else {
        let d = dir_url(segs);
        lemma_dir_url_shape(segs);
        let lead = starts_with(h, seq!['/']);
        let body = if lead { d } else { d.drop_first() };
        assert(d =~= seq!['/'] + d.drop_first());
        assert(d.drop_last() =~= seq!['/'] + d.drop_first().drop_last());
        lemma_seg_scan_slash(d.drop_first());
        lemma_seg_scan_slash(d.drop_first().drop_last());
        lemma_lacks_sub(d, '?');
        lemma_lacks_sub(d, '#');
        lemma_lacks_sub(d.drop_first(), '?');
        lemma_lacks_sub(d.drop_first(), '#');
        assert(!body.contains('?') && !body.contains('#'));
        assert(seg_scan(body) == (segs, Seq::<char>::empty()));
        assert(seg_scan(body.drop_last()) == (segs.drop_last(), segs.last()));
        assert(clean_segment(segs[segs.len() - 1]));
        assert(segs.drop_last().push(segs.last()) =~= segs);
        assert(clean_segment(segs[0]));
        if file_like(segs.last()) {
            assert(n == body.drop_last());
            lemma_lacks_sub(body, '?');
            lemma_lacks_sub(body, '#');
            assert(segments(n) == segs);
        } else {
            assert(n == body);
            assert(segments(n) == segs);
        }
        lemma_before_char(n, '?');
        lemma_before_char(n, '#');
        assert(url_path_part(n) == n);
        assert(resolved_segments(n) == segs);
        assert(n.len() > 0 && n[0] == body[0]);
        assert(starts_with(n, seq!['/']) == lead) by {
            assert(n.take(1) =~= seq![n[0]]);
            if !lead {
                assert(body[0] == d[1]);
                assert(d[1] == segs[0][0]);
                assert(!segs[0].contains('/'));
                assert(segs[0][0] != '/');
            }
            if h.len() > 0 {
                assert(h.take(1) =~= seq![h[0]]);
            }
        }
    }
}

// ---------------------------------------------------------------------------
// Outbound link resolution
// ---------------------------------------------------------------------------

/// The target an outbound link is stored under once resolved against the
/// page at `base`.
pub open spec fn resolved_target(base: Seq<char>, l: OutboundLinkView, is_index_file: bool) -> Seq<
    char,
> {
    if l.internal && !starts_with(l.to, seq!['/']) && !starts_with(l.to, seq!['#']) {
        resolved_url(base, l.to, is_index_file)
    } else {
        l.to
    }
}

/// What [`resolve_outbound_links`] returns: every link with a non-empty
/// target, in order, with its target resolved.
pub open spec fn resolved_outbound(base: Seq<char>, links: Seq<OutboundLinkView>, is_index_file: bool) -> Seq<
    OutboundLinkView,
>
    decreases links.len(),
{
    if links.len() == 0 {
        Seq::empty()
    } else {
        let prev = resolved_outbound(base, links.drop_last(), is_index_file);
        let l = links.last();
        if l.to.len() == 0 {
            prev
        } else {
            prev.push(OutboundLinkView { to: resolved_target(base, l, is_index_file), ..l })
        }
    }
}

/// The views of each link.
pub open spec fn outbound_views(links: Seq<OutboundLink>) -> Seq<OutboundLinkView> {
    links.map_values(|l: OutboundLink| l@)
}

/// Resolves all relative URLs in outbound links to absolute URLs.
///
/// Links with an empty target are dropped: the renderer splits `#anchor` off
/// the destination before storing it, so an anchor-only link arrives as
/// `to: ""` and targets the current page, not another one.
pub fn resolve_outbound_links(base_url: &str, links: Vec<OutboundLink>, is_index_file: bool) -> (r:
    Vec<OutboundLink>)
    ensures
        outbound_views(r@) == resolved_outbound(base_url@, outbound_views(links@), is_index_file),
{
    let ghost ins = outbound_views(links@);
    let mut out: Vec<OutboundLink> = Vec::new();
    let mut rest = links;
    let mut taken: Vec<OutboundLink> = Vec::new();
    // Move the links out back to front, then process them front to back.
    while rest.len() > 0
        invariant
            outbound_views(rest@) + outbound_views(taken@).reverse() == ins,
        decreases rest@.len(),
    {
        let ghost before_rest = rest@;
        let ghost before_taken = taken@;
        let l = rest.pop().unwrap();
        taken.push(l);
        assert(outbound_views(before_rest) =~= outbound_views(rest@).push(l@));
        assert(outbound_views(taken@).reverse() =~= seq![l@] + outbound_views(before_taken).reverse());
        assert(outbound_views(rest@) + outbound_views(taken@).reverse() =~= outbound_views(before_rest)
            + outbound_views(before_taken).reverse());
    }
    assert(outbound_views(taken@).reverse() =~= ins);
    let n = taken.len();
    let mut i: usize = 0;
    while taken.len() > 0
        invariant
            i + taken@.len() == n,
            n == ins.len(),
            outbound_views(taken@).reverse() == ins.skip(i as int),
            outbound_views(out@) == resolved_outbound(base_url@, ins.take(i as int), is_index_file),
        decreases taken@.len(),
    {
        let ghost before_taken = taken@;
        let mut l = taken.pop().unwrap();
        assert(outbound_views(before_taken) =~= outbound_views(taken@).push(l@));
        assert(ins.skip(i as int)[0] == l@) by {
            assert(outbound_views(before_taken).reverse()[0] == outbound_views(before_taken).last());
        }
        assert(outbound_views(taken@).reverse() =~= ins.skip(i + 1)) by {
            assert(outbound_views(before_taken).reverse() =~= seq![l@] + outbound_views(taken@).reverse());
            assert(ins.skip(i as int).drop_first() =~= ins.skip(i + 1));
        }
        assert(ins.take(i + 1).drop_last() =~= ins.take(i as int));
        assert(ins.take(i + 1).last() == l@);
        let to = chars_of(l.to.as_str());
        if to.len() > 0 {
            let ghost lv = l@;
            let internal = l.internal;
            let slash = to[0] == '/';
            let hash = to[0] == '#';
            assert(starts_with(to@, seq!['/']) == slash) by {
                if slash {
                    assert(to@.take(1) =~= seq!['/']);
                }
                if starts_with(to@, seq!['/']) {
                    assert(to@.take(1)[0] == '/');
                }
            }
            assert(starts_with(to@, seq!['#']) == hash) by {
                if hash {
                    assert(to@.take(1) =~= seq!['#']);
                }
                if starts_with(to@, seq!['#']) {
                    assert(to@.take(1)[0] == '#');
                }
            }
            if internal && !slash && !hash {
                l.to = resolve_relative_url(base_url, l.to.as_str(), is_index_file);
            }
            assert(l@ == OutboundLinkView { to: resolved_target(base_url@, lv, is_index_file), ..lv });
            let ghost before_out = out@;
            out.push(l);
            assert(outbound_views(out@) =~= outbound_views(before_out).push(l@));
        }
        i += 1;
    }
    assert(ins.take(n as int) =~= ins);
    out
}

// ---------------------------------------------------------------------------
// Deterministic ordering of inbound links
// ---------------------------------------------------------------------------

/// `a` sorts strictly before `b`: lexicographic by code point, which is how
/// `str` compares (UTF-8 preserves code point order).
pub open spec fn chars_lt(a: Seq<char>, b: Seq<char>) -> bool
    decreases a.len(),
{
    if a.len() == 0 {
        b.len() > 0
    } else if b.len() == 0 {
        false
    } else if a[0] != b[0] {
        a[0] < b[0]
    } else {
        chars_lt(a.drop_first(), b.drop_first())
    }
}

/// `None` sorts before every `Some`, `Some`s by their contents.
pub open spec fn opt_chars_le(a: Option<Seq<char>>, b: Option<Seq<char>>) -> bool {
    match (a, b) {
        (None, _) => true,
        (Some(_), None) => false,
        (Some(x), Some(y)) => x == y || chars_lt(x, y),
    }
}

/// The order [`sort_inbound_links`] establishes: by source, then text, then
/// anchor — the link's full contents.
pub open spec fn inbound_le(a: InboundLinkView, b: InboundLinkView) -> bool {
    chars_lt(a.from, b.from) || (a.from == b.from && (chars_lt(a.text, b.text) || (a.text == b.text
        && opt_chars_le(a.anchor, b.anchor))))
}

/// [`inbound_le`] as a relation.
pub open spec fn inbound_order() -> spec_fn(InboundLinkView, InboundLinkView) -> bool {
    |a: InboundLinkView, b: InboundLinkView| inbound_le(a, b)
}

/// The views of each link.
pub open spec fn inbound_views(links: Seq<InboundLink>) -> Seq<InboundLinkView> {
    links.map_values(|l: InboundLink| l@)
}

/// No text sorts before itself.
pub(crate) proof fn lemma_chars_lt_irreflexive(a: Seq<char>)
    ensures
        !chars_lt(a, a),
    decreases a.len(),
{
    if a.len() > 0 {
        lemma_chars_lt_irreflexive(a.drop_first());
    }
}

/// Of two texts, one sorts first or they are equal.
pub(crate) proof fn lemma_chars_lt_trichotomy(a: Seq<char>, b: Seq<char>)
    ensures
        a == b || chars_lt(a, b) || chars_lt(b, a),
        !(chars_lt(a, b) && chars_lt(b, a)),
    decreases a.len(),
{
    if a.len() == 0 || b.len() == 0 {
        if a.len() == 0 && b.len() == 0 {
            assert(a =~= b);
        }
    } else if a[0] != b[0] {
    } else {
        lemma_chars_lt_trichotomy(a.drop_first(), b.drop_first());
        if a.drop_first() == b.drop_first() {
            assert(a =~= b) by {
                assert(a =~= seq![a[0]] + a.drop_first());
                assert(b =~= seq![b[0]] + b.drop_first());
            }
        }
    }
}

/// Sorting before is transitive.
pub(crate) proof fn lemma_chars_lt_transitive(a: Seq<char>, b: Seq<char>, c: Seq<char>)
    requires
        chars_lt(a, b),
        chars_lt(b, c),
    ensures
        chars_lt(a, c),
    decreases a.len(),
{
    if a.len() == 0 {
    } else if a[0] != b[0] || b[0] != c[0] {
    } else {
        lemma_chars_lt_transitive(a.drop_first(), b.drop_first(), c.drop_first());
    }
}

proof fn lemma_inbound_connected(a: InboundLinkView, b: InboundLinkView)
    ensures
        inbound_le(a, b) || inbound_le(b, a),
{
    lemma_chars_lt_trichotomy(a.from, b.from);
    lemma_chars_lt_trichotomy(a.text, b.text);
    if let (Some(x), Some(y)) = (a.anchor, b.anchor) {
        lemma_chars_lt_trichotomy(x, y);
    }
}

proof fn lemma_inbound_transitive(a: InboundLinkView, b: InboundLinkView, c: InboundLinkView)
    requires
        inbound_le(a, b),
        inbound_le(b, c),
    ensures
        inbound_le(a, c),
{
    if chars_lt(a.from, b.from) && chars_lt(b.from, c.from) {
        lemma_chars_lt_transitive(a.from, b.from, c.from);
    }
    if chars_lt(a.text, b.text) && chars_lt(b.text, c.text) {
        lemma_chars_lt_transitive(a.text, b.text, c.text);
    }
    if let (Some(x), Some(y), Some(z)) = (a.anchor, b.anchor, c.anchor) {
        if chars_lt(x, y) && chars_lt(y, z) {
            lemma_chars_lt_transitive(x, y, z);
        }
    }
}

/// [`inbound_order`] is a total order.
pub(crate) proof fn lemma_inbound_le_total_ordering()
    ensures
        vstd::relations::total_ordering(inbound_order()),
{
    let leq = inbound_order();
    assert forall|a: InboundLinkView| #[trigger] leq(a, a) by {
        if let Some(x) = a.anchor {
        }
    }
    assert forall|a: InboundLinkView, b: InboundLinkView|
        #[trigger] leq(a, b) && #[trigger] leq(b, a) implies a == b by {
        lemma_chars_lt_trichotomy(a.from, b.from);
        lemma_chars_lt_trichotomy(a.text, b.text);
        if let (Some(x), Some(y)) = (a.anchor, b.anchor) {
            lemma_chars_lt_trichotomy(x, y);
        }
    }
    assert forall|a: InboundLinkView, b: InboundLinkView, c: InboundLinkView|
        #[trigger] leq(a, b) && #[trigger] leq(b, c) implies #[trigger] leq(a, c) by {
        if chars_lt(a.from, b.from) && chars_lt(b.from, c.from) {
            lemma_chars_lt_transitive(a.from, b.from, c.from);
        }
        if chars_lt(a.text, b.text) && chars_lt(b.text, c.text) {
            lemma_chars_lt_transitive(a.text, b.text, c.text);
        }
        if let (Some(x), Some(y), Some(z)) = (a.anchor, b.anchor, c.anchor) {
            if chars_lt(x, y) && chars_lt(y, z) {
                lemma_chars_lt_transitive(x, y, z);
            }
        }
    }
    assert forall|a: InboundLinkView, b: InboundLinkView| #[trigger] leq(a, b) || #[trigger] leq(b, a) by {
        lemma_chars_lt_trichotomy(a.from, b.from);
        lemma_chars_lt_trichotomy(a.text, b.text);
        if let (Some(x), Some(y)) = (a.anchor, b.anchor) {
            lemma_chars_lt_trichotomy(x, y);
        }
    }
}

/// Exec version of [`chars_lt`].
pub(crate) fn chars_less(a: &[char], b: &[char]) -> (r: bool)
    ensures
        r == chars_lt(a@, b@),
{
    let mut i: usize = 0;
    assert(a@.skip(0) =~= a@);
    assert(b@.skip(0) =~= b@);
    while i < a.len() && i < b.len() && a[i] == b[i]
        invariant
            i <= a@.len(),
            i <= b@.len(),
            chars_lt(a@.skip(i as int), b@.skip(i as int)) == chars_lt(a@, b@),
        decreases a@.len() - i,
    {
        assert(a@.skip(i as int).drop_first() =~= a@.skip(i + 1));
        assert(b@.skip(i as int).drop_first() =~= b@.skip(i + 1));
        i += 1;
    }
    if i == a.len() {
        i < b.len()
    } else if i == b.len() {
        false
    } else {
        assert(a@.skip(i as int)[0] == a@[i as int]);
        assert(b@.skip(i as int)[0] == b@[i as int]);
        a[i] < b[i]
    }
}

/// Exec version of [`inbound_le`].
fn inbound_less_eq(a: &InboundLink, b: &InboundLink) -> (r: bool)
    ensures
        r == inbound_le(a@, b@),
{
    let af = chars_of(a.from.as_str());
    let bf = chars_of(b.from.as_str());
    if chars_less(&af, &bf) {
        return true;
    }
    if !chars_eq_vec(&af, &bf) {
        return false;
    }
    let at = chars_of(a.text.as_str());
    let bt = chars_of(b.text.as_str());
    if chars_less(&at, &bt) {
        return true;
    }
    if !chars_eq_vec(&at, &bt) {
        return false;
    }
    match (&a.anchor, &b.anchor) {
        (None, _) => true,
        (Some(_), None) => false,
        (Some(x), Some(y)) => {
            let xv = chars_of(x.as_str());
            let yv = chars_of(y.as_str());
            chars_eq_vec(&xv, &yv) || chars_less(&xv, &yv)
        },
    }
}

fn chars_eq_vec(a: &Vec<char>, b: &Vec<char>) -> (r: bool)
    ensures
        r == (a@ == b@),
{
    crate::text::chars_eq(a.as_slice(), b.as_slice())
}

/// The first position in `out` whose link sorts after `x`.
fn insert_position(out: &Vec<InboundLink>, x: &InboundLink) -> (j: usize)
    ensures
        j <= out@.len(),
        forall|k: int| 0 <= k < j ==> inbound_le(#[trigger] inbound_views(out@)[k], x@),
        j < out@.len() ==> !inbound_le(inbound_views(out@)[j as int], x@),
{
    let mut j: usize = 0;
    while j < out.len()
        invariant
            j <= out@.len(),
            forall|k: int| 0 <= k < j ==> inbound_le(#[trigger] inbound_views(out@)[k], x@),
        decreases out@.len() - j,
    {
        assert(inbound_views(out@)[j as int] == out@[j as int]@);
        if !inbound_less_eq(&out[j], x) {
            return j;
        }
        j += 1;
    }
    j
}

/// Sorts inbound links into a deterministic order: by source, then text,
/// then anchor.
///
/// Both producers of an inbound list build it by iterating a hash map whose
/// order is seeded per process; sorting on the links' full contents makes
/// the result independent of that order (see
/// [`law_sorted_inbound_links_unique`]).
pub fn sort_inbound_links(links: &mut Vec<InboundLink>)
    ensures
        vstd::relations::sorted_by(
            inbound_views(final(links)@),
            inbound_order(),
        ),
        inbound_views(final(links)@).to_multiset() == inbound_views(old(links)@).to_multiset(),
{
    broadcast use vstd::seq_lib::group_to_multiset_ensures;
    broadcast use vstd::multiset::group_multiset_axioms;

    proof {
        lemma_inbound_le_total_ordering();
    }
    let ghost all = inbound_views(links@).to_multiset();
    let mut out: Vec<InboundLink> = Vec::new();
    assert(inbound_views(out@) =~= Seq::<InboundLinkView>::empty());
    while links.len() > 0
        invariant
            vstd::relations::total_ordering(inbound_order()),
            vstd::relations::sorted_by(inbound_views(out@), inbound_order()),
            inbound_views(out@).to_multiset().add(inbound_views(links@).to_multiset()) == all,
        decreases links@.len(),
    {
        let ghost before = links@;
        let x = links.pop().unwrap();
        assert(inbound_views(before) =~= inbound_views(links@).push(x@));
        let ghost ov = inbound_views(out@);
        let j = insert_position(&out, &x);
        proof {
            if j < ov.len() {
                lemma_inbound_connected(ov[j as int], x@);
                assert forall|k: int| j < k < ov.len() implies inbound_le(x@, #[trigger] ov[k]) by {
                    assert(inbound_order()(ov[j as int], ov[k]));
                    lemma_inbound_transitive(x@, ov[j as int], ov[k]);
                }
            }
        }
        let ghost lv = inbound_views(links@);
        out.insert(j, x);
        assert(inbound_views(out@) =~= ov.insert(j as int, x@));
        proof {
            let nv = inbound_views(out@);
            assert forall|a: int, b: int| 0 <= a < b < nv.len() implies #[trigger] inbound_order()(
                nv[a],
                nv[b],
            ) by {
                if b < j {
                    assert(inbound_order()(ov[a], ov[b]));
                } else if b == j {
                } else if a < j {
                    lemma_inbound_transitive(ov[a], x@, ov[b - 1]);
                } else if a == j {
                } else {
                    assert(inbound_order()(ov[a - 1], ov[b - 1]));
                }
            }
            vstd::seq_lib::to_multiset_insert(ov, j as int, x@);
            lv.to_multiset_ensures();
            assert(inbound_views(before) == lv.push(x@));
            assert(inbound_views(before).to_multiset() == lv.to_multiset().insert(x@));
            assert(nv.to_multiset().add(lv.to_multiset()) =~= ov.to_multiset().add(
                inbound_views(before).to_multiset(),
            ));
        }
    }
    *links = out;
}

/// Two sorted arrangements of the same inbound links are identical: the
/// order [`sort_inbound_links`] produces depends only on which links there
/// are, never on the order they arrived in.
pub proof fn law_sorted_inbound_links_unique(x: Seq<InboundLinkView>, y: Seq<InboundLinkView>)
    requires
        vstd::relations::sorted_by(x, inbound_order()),
        vstd::relations::sorted_by(y, inbound_order()),
        x.to_multiset() == y.to_multiset(),
    ensures
        x == y,
{
    lemma_inbound_le_total_ordering();
    vstd::seq_lib::lemma_sorted_unique(x, y, inbound_order());
}

} // verus!
