//! Link transformation for the trailing-slash URL convention.
//!
//! When markdown files are served at trailing-slash URLs (`docs/guide.md` →
//! `/docs/guide/`), relative links in the markdown need adjusting so they
//! resolve correctly from the browser's perspective: a `../` prefix for
//! regular (non-index) pages, markdown extensions replaced by a trailing
//! slash, and index-file references collapsed to their directory.

use vstd::prelude::*;
use crate::link_index::{
    apply_clamped, dir_url, link_base_dir, resolve_relative_url_checked, resolved_url, resolved_url_checked, seg_scan,
    segments,
};
use crate::text::{
    chars_of, copy_range, ends_with, has_prefix, has_suffix, lemma_trim_start_suffix,
    lemma_up_dirs_len, push_all, starts_with, string_of, trim_end, trim_end_len, trim_start,
    trim_start_pos, up_dirs, up_dirs_exec,
};
use crate::url_path::{has_scheme, is_ascii_alpha, is_external, is_external_chars, is_scheme_char};

verus! {

/// Configuration for link transformation.
#[derive(Debug, Clone)]
pub struct LinkTransformConfig {
    /// Markdown file extensions (e.g., ["md", "markdown"])
    pub markdown_extensions: Vec<String>,
    /// Index filename (e.g., "index.md")
    pub index_file: String,
    /// Whether the current file is an index file (affects ../ prefix)
    pub is_index_file: bool,
    /// Page depth for converting root-relative URLs to relative (build mode).
    /// None = leave root-relative URLs unchanged (server mode).
    pub url_depth: Option<usize>,
    /// The canonical URL of the page being rendered (e.g. `/docs/guide/`).
    /// Empty when there is no current page context.
    pub current_page_url: String,
}

/// The abstract content of a [`LinkTransformConfig`].
pub struct LinkTransformConfigView {
    pub markdown_extensions: Seq<Seq<char>>,
    pub index_file: Seq<char>,
    pub is_index_file: bool,
    pub url_depth: Option<usize>,
    pub current_page_url: Seq<char>,
}

impl View for LinkTransformConfig {
    type V = LinkTransformConfigView;

    open spec fn view(&self) -> LinkTransformConfigView {
        LinkTransformConfigView {
            markdown_extensions: self.markdown_extensions@.map_values(|e: String| e@),
            index_file: self.index_file@,
            is_index_file: self.is_index_file,
            url_depth: self.url_depth,
            current_page_url: self.current_page_url@,
        }
    }
}

impl Default for LinkTransformConfig {
    fn default() -> (r: Self)
        ensures
            r@.markdown_extensions == seq![seq!['m', 'd']],
            r@.index_file == seq!['i', 'n', 'd', 'e', 'x', '.', 'm', 'd'],
            !r@.is_index_file,
            r@.url_depth is None,
            r@.current_page_url.len() == 0,
    {
        let mut exts: Vec<String> = Vec::new();
        exts.push(string_of(&['m', 'd']));
        let r = LinkTransformConfig {
            markdown_extensions: exts,
            index_file: string_of(&['i', 'n', 'd', 'e', 'x', '.', 'm', 'd']),
            is_index_file: false,
            url_depth: None,
            current_page_url: String::new(),
        };
        assert(r@.markdown_extensions =~= seq![seq!['m', 'd']]);
        r
    }
}

// ---------------------------------------------------------------------------
// Specification
// ---------------------------------------------------------------------------

/// Unicode `White_Space` (what `char::is_whitespace` tests).
pub open spec fn is_unicode_whitespace(c: char) -> bool {
    ('\u{9}' <= c && c <= '\u{d}') || c == ' ' || c == '\u{85}' || c == '\u{a0}' || c == '\u{1680}'
        || ('\u{2000}' <= c && c <= '\u{200a}') || c == '\u{2028}' || c == '\u{2029}' || c
        == '\u{202f}' || c == '\u{205f}' || c == '\u{3000}'
}

/// Every character of `s` is whitespace (`s.trim().is_empty()`).
pub open spec fn all_whitespace(s: Seq<char>) -> bool {
    forall|i: int| 0 <= i < s.len() ==> is_unicode_whitespace(#[trigger] s[i])
}

/// Index of the first `#` or `?` at or after `i`.
pub open spec fn find_suffix_start(s: Seq<char>, i: int) -> Option<int>
    decreases s.len() - i,
{
    if i < 0 || i >= s.len() {
        None
    } else if s[i] == '#' || s[i] == '?' {
        Some(i)
    } else {
        find_suffix_start(s, i + 1)
    }
}

/// `url` split before its first `#` or `?`.
pub open spec fn url_parts(url: Seq<char>) -> (Seq<char>, Seq<char>) {
    match find_suffix_start(url, 0) {
        Some(k) => (url.take(k), url.skip(k)),
        None => (url, Seq::empty()),
    }
}

/// The number of leading `../` in `path`, and what follows them.
pub open spec fn parent_traversals(path: Seq<char>) -> (nat, Seq<char>)
    decreases path.len(),
{
    if starts_with(path, seq!['.', '.', '/']) {
        let r = parent_traversals(path.skip(3));
        (r.0 + 1, r.1)
    } else {
        (0, path)
    }
}

/// `path` without the first markdown extension (in configuration order)
/// that it ends with.
pub open spec fn strip_markdown_ext(path: Seq<char>, exts: Seq<Seq<char>>) -> Option<Seq<char>>
    decreases exts.len(),
{
    if exts.len() == 0 {
        None
    } else {
        let suffix = seq!['.'] + exts[0];
        if ends_with(path, suffix) {
            Some(path.take(path.len() - suffix.len()))
        } else {
            strip_markdown_ext(path, exts.drop_first())
        }
    }
}

/// The index file's name without a `.md` / `.markdown` extension.
pub open spec fn index_stem(index_file: Seq<char>) -> Seq<char> {
    if ends_with(index_file, seq!['.', 'm', 'd']) {
        index_file.take(index_file.len() - 3)
    } else if ends_with(index_file, seq!['.', 'm', 'a', 'r', 'k', 'd', 'o', 'w', 'n']) {
        index_file.take(index_file.len() - 9)
    } else {
        index_file
    }
}

/// What [`make_relative_url`] returns.
pub open spec fn relative_url(absolute_url: Seq<char>, depth: nat) -> Seq<char> {
    let target = trim_start(absolute_url, '/');
    if target.len() == 0 {
        if depth == 0 {
            seq!['.', '/']
        } else {
            up_dirs(depth)
        }
    } else {
        up_dirs(depth) + target
    }
}

/// The authored path of a relative link: before any `#`/`?`, without a
/// leading `./`.
pub open spec fn authored_path(url: Seq<char>) -> Seq<char> {
    let p = url_parts(url).0;
    if starts_with(p, seq!['.', '/']) {
        p.skip(2)
    } else {
        p
    }
}

/// The link reaches the transform's relative-path rules (it is neither
/// blank, an anchor, external nor root-relative, and has a path).
pub open spec fn is_relative_link(url: Seq<char>) -> bool {
    !(url.len() == 0 || all_whitespace(url)) && !starts_with(url, seq!['#']) && !is_external(url)
        && !starts_with(url, seq!['/']) && url_parts(url).0.len() > 0
}

/// The absolute URL a markdown-page probe is asked about for `url`, if it
/// is asked at all: only for a relative target with no markdown extension
/// and no trailing slash, when there is a current page URL and the target
/// stays inside the repository.
pub open spec fn probe_target(url: Seq<char>, cfg: LinkTransformConfigView) -> Option<Seq<char>> {
    let path = authored_path(url);
    let rem = parent_traversals(path).1;
    if is_relative_link(url) && rem.len() > 0 && strip_markdown_ext(rem, cfg.markdown_extensions)
        is None && !ends_with(rem, seq!['/']) && cfg.current_page_url.len() > 0 {
        resolved_url_checked(cfg.current_page_url, path, cfg.is_index_file)
    } else {
        None
    }
}

/// What the transform emits for `url`, given whether an extension-less
/// target names a markdown page (`target_is_page`).
pub open spec fn transformed_link(
    url: Seq<char>,
    cfg: LinkTransformConfigView,
    target_is_page: bool,
) -> Seq<char> {
    if url.len() == 0 || all_whitespace(url) {
        url
    } else if starts_with(url, seq!['#']) {
        url
    } else if is_external(url) {
        url
    } else if starts_with(url, seq!['/']) {
        match cfg.url_depth {
            Some(d) => relative_url(url, d as nat),
            None => url,
        }
    } else if url_parts(url).0.len() == 0 {
        url
    } else {
        let suffix = url_parts(url).1;
        let (pc, rem) = parent_traversals(authored_path(url));
        let prefix = up_dirs(
            if cfg.is_index_file {
                pc
            } else {
                pc + 1
            },
        );
        relative_result(prefix, rem, suffix, cfg, target_is_page)
    }
}

/// The path a markdown target is emitted as: its base with a trailing
/// slash, or — when the final segment is exactly the index file's stem —
/// the folder holding it (empty for the current folder).
pub open spec fn md_final_path(base: Seq<char>, index_file: Seq<char>) -> Seq<char> {
    let stem = index_stem(index_file);
    if base == stem || ends_with(base, seq!['/'] + stem) {
        let stripped = trim_end(base.take(base.len() - stem.len()), '/');
        if stripped.len() == 0 {
            Seq::empty()
        } else {
            stripped.push('/')
        }
    } else {
        base.push('/')
    }
}

/// The emitted form of a relative link whose path after the leading `../`
/// is `rem`.
pub open spec fn relative_result(
    prefix: Seq<char>,
    rem: Seq<char>,
    suffix: Seq<char>,
    cfg: LinkTransformConfigView,
    target_is_page: bool,
) -> Seq<char> {
    if rem.len() == 0 {
        prefix + suffix
    } else {
        match strip_markdown_ext(rem, cfg.markdown_extensions) {
            Some(base) => {
                let final_path = md_final_path(base, cfg.index_file);
                if final_path.len() == 0 && prefix.len() == 0 {
                    seq!['.', '/'] + suffix
                } else {
                    prefix + final_path + suffix
                }
            },
            None => {
                if !ends_with(rem, seq!['/']) && target_is_page {
                    prefix + rem + seq!['/'] + suffix
                } else {
                    prefix + rem + suffix
                }
            },
        }
    }
}

// ---------------------------------------------------------------------------
// Implementation
// ---------------------------------------------------------------------------

/// Whether `c` is Unicode white space.
pub(crate) fn is_unicode_whitespace_exec(c: char) -> (r: bool)
    ensures
        r == is_unicode_whitespace(c),
{
    ('\u{9}' <= c && c <= '\u{d}') || c == ' ' || c == '\u{85}' || c == '\u{a0}' || c == '\u{1680}'
        || ('\u{2000}' <= c && c <= '\u{200a}') || c == '\u{2028}' || c == '\u{2029}' || c
        == '\u{202f}' || c == '\u{205f}' || c == '\u{3000}'
}

/// Whether every character of `s` is Unicode white space.
pub(crate) fn all_whitespace_exec(s: &[char]) -> (r: bool)
    ensures
        r == all_whitespace(s@),
{
    let mut i: usize = 0;
    while i < s.len()
        invariant
            i <= s@.len(),
            forall|j: int| 0 <= j < i ==> is_unicode_whitespace(#[trigger] s@[j]),
        decreases s@.len() - i,
    {
        if !is_unicode_whitespace_exec(s[i]) {
            return false;
        }
        i += 1;
    }
    true
}

proof fn lemma_find_suffix_start_bounds(s: Seq<char>, i: int)
    ensures
        find_suffix_start(s, i) matches Some(k) ==> i <= k < s.len(),
    decreases s.len() - i,
{
    if i < 0 || i >= s.len() {
    } else if s[i] == '#' || s[i] == '?' {
    } else {
        lemma_find_suffix_start_bounds(s, i + 1);
    }
}

/// Split a URL into path and suffix (anchor `#` or query `?`); the suffix
/// keeps its delimiter.
pub(crate) fn split_url_parts(url: &[char]) -> (r: (Vec<char>, Vec<char>))
    ensures
        r.0@ == url_parts(url@).0,
        r.1@ == url_parts(url@).1,
{
    let mut i: usize = 0;
    while i < url.len() && url[i] != '#' && url[i] != '?'
        invariant
            i <= url@.len(),
            find_suffix_start(url@, 0) == find_suffix_start(url@, i as int),
        decreases url@.len() - i,
    {
        i += 1;
    }
    if i < url.len() {
        let a = copy_range(url, 0, i);
        let b = copy_range(url, i, url.len());
        assert(url@.subrange(i as int, url@.len() as int) =~= url@.skip(i as int));
        (a, b)
    } else {
        let a = copy_range(url, 0, url.len());
        assert(a@ =~= url@);
        (a, Vec::new())
    }
}

proof fn lemma_parent_step(s: Seq<char>)
    requires
        s.len() >= 3,
        s[0] == '.',
        s[1] == '.',
        s[2] == '/',
    ensures
        parent_traversals(s) == ((parent_traversals(s.skip(3)).0 + 1) as nat, parent_traversals(
            s.skip(3),
        ).1),
{
    assert(s.take(3) =~= seq!['.', '.', '/']);
}

/// Count leading `../` sequences and return (count, where the rest starts).
fn count_parent_traversals(path: &[char]) -> (r: (usize, usize))
    ensures
        r.1 <= path@.len(),
        3 * r.0 == r.1,
        parent_traversals(path@) == (r.0 as nat, path@.skip(r.1 as int)),
{
    let mut count: usize = 0;
    let mut pos: usize = 0;
    assert(path@.skip(0) =~= path@);
    loop
        invariant
            pos <= path@.len(),
            3 * count == pos,
            parent_traversals(path@) == ((parent_traversals(path@.skip(pos as int)).0 + count) as nat,
            parent_traversals(path@.skip(pos as int)).1),
        ensures
            pos <= path@.len(),
            3 * count == pos,
            parent_traversals(path@) == (count as nat, path@.skip(pos as int)),
        decreases path@.len() - pos,
    {
        let ghost rest = path@.skip(pos as int);
        if path.len() - pos < 3 || path[pos] != '.' || path[pos + 1] != '.' || path[pos + 2] != '/' {
            assert(!starts_with(rest, seq!['.', '.', '/'])) by {
                if starts_with(rest, seq!['.', '.', '/']) {
                    assert(rest.take(3)[0] == '.' && rest.take(3)[1] == '.' && rest.take(3)[2]
                        == '/');
                }
            }
            assert(parent_traversals(rest) == (0nat, rest));
            break ;
        }
        proof {
            lemma_parent_step(rest);
            assert(rest.skip(3) =~= path@.skip(pos + 3));
        }
        pos += 3;
        count += 1;
    }
    (count, pos)
}

/// Strip a markdown extension if present, returning the base path.
fn strip_markdown_extension(path: &[char], extensions: &Vec<String>) -> (r: Option<Vec<char>>)
    ensures
        match r {
            Some(b) => strip_markdown_ext(path@, extensions@.map_values(|e: String| e@)) == Some(
                b@,
            ),
            None => strip_markdown_ext(path@, extensions@.map_values(|e: String| e@)) is None,
        },
{
    let ghost exts = extensions@.map_values(|e: String| e@);
    let mut i: usize = 0;
    assert(exts.skip(0) =~= exts);
    while i < extensions.len()
        invariant
            exts == extensions@.map_values(|e: String| e@),
            i <= extensions@.len(),
            strip_markdown_ext(path@, exts) == strip_markdown_ext(path@, exts.skip(i as int)),
        decreases extensions@.len() - i,
    {
        let mut suffix: Vec<char> = vec!['.'];
        let e = chars_of(extensions[i].as_str());
        push_all(&mut suffix, &e);
        assert(exts[i as int] == extensions@[i as int]@);
        assert(exts.skip(i as int)[0] == e@);
        assert(suffix@ == seq!['.'] + exts.skip(i as int)[0]);
        assert(exts.skip(i as int).drop_first() =~= exts.skip(i + 1));
        if has_suffix(path, &suffix) {
            return Some(copy_range(path, 0, path.len() - suffix.len()));
        }
        i += 1;
    }
    None
}

/// The index file name without its markdown extension.
fn index_stem_exec(index_file: &[char]) -> (r: Vec<char>)
    ensures
        r@ == index_stem(index_file@),
{
    if has_suffix(index_file, &['.', 'm', 'd']) {
        copy_range(index_file, 0, index_file.len() - 3)
    } else if has_suffix(index_file, &['.', 'm', 'a', 'r', 'k', 'd', 'o', 'w', 'n']) {
        copy_range(index_file, 0, index_file.len() - 9)
    } else {
        let r = copy_range(index_file, 0, index_file.len());
        assert(r@ =~= index_file@);
        r
    }
}

fn relative_url_chars(absolute_url: &[char], depth: usize) -> (r: Vec<char>)
    requires
        3 * depth + absolute_url@.len() + 2 <= usize::MAX,
    ensures
        r@ == relative_url(absolute_url@, depth as nat),
{
    let start = trim_start_pos(absolute_url, '/');
    let target = copy_range(absolute_url, start, absolute_url.len());
    assert(target@ =~= trim_start(absolute_url@, '/'));
    if target.len() == 0 {
        if depth == 0 {
            vec!['.', '/']
        } else {
            up_dirs_exec(depth)
        }
    } else {
        let mut r = up_dirs_exec(depth);
        push_all(&mut r, &target);
        r
    }
}

/// Convert an absolute URL path to a relative URL from the given depth:
/// from depth 2, `/` becomes `../../` and `/docs/guide/` becomes
/// `../../docs/guide/`.
pub fn make_relative_url(absolute_url: &str, depth: usize) -> (r: String)
    requires
        3 * depth + absolute_url@.len() + 2 <= usize::MAX,
    ensures
        r@ == relative_url(absolute_url@, depth as nat),
{
    let v = chars_of(absolute_url);
    string_of(&relative_url_chars(&v, depth))
}

/// The absolute URL a markdown-page probe would be asked about for `url`,
/// or `None` when the transform does not consult a probe for this link.
pub fn markdown_probe_target(url: &str, config: &LinkTransformConfig) -> (r: Option<String>)
    ensures
        match r {
            Some(t) => probe_target(url@, config@) == Some(t@),
            None => probe_target(url@, config@) is None,
        },
{
    let u = chars_of(url);
    let plan = plan_relative(&u, config);
    match plan {
        None => None,
        Some((path, _suffix, _pc, rem_start)) => {
            let rem = copy_range(&path, rem_start, path.len());
            if rem.len() == 0 {
                return None;
            }
            match strip_markdown_extension(&rem, &config.markdown_extensions) {
                Some(_) => None,
                None => {
                    if (rem.len() > 0 && rem[rem.len() - 1] == '/') || config.current_page_url.as_str().is_empty() {
                        proof {
                            if rem@.len() > 0 && rem@[rem@.len() - 1] == '/' {
                                assert(rem@.skip(rem@.len() - 1) =~= seq!['/']);
                            }
                        }
                        None
                    } else {
                        assert(!ends_with(rem@, seq!['/'])) by {
                            if ends_with(rem@, seq!['/']) {
                                assert(rem@.skip(rem@.len() - 1)[0] == rem@[rem@.len() - 1]);
                            }
                        }
                        let p = string_of(&path);
                        resolve_relative_url_checked(config.current_page_url.as_str(), p.as_str(), config.is_index_file)
                    }
                },
            }
        },
    }
}

/// For a relative link: the authored path, the suffix, the number of `../`
/// and where the rest of the path starts.
fn plan_relative(u: &Vec<char>, config: &LinkTransformConfig) -> (r: Option<(Vec<char>, Vec<char>, usize, usize)>)
    ensures
        r is Some <==> is_relative_link(u@),
        r matches Some(p) ==> {
            &&& p.0@ == authored_path(u@)
            &&& p.1@ == url_parts(u@).1
            &&& p.3 <= p.0@.len()
            &&& 3 * p.2 == p.3
            &&& parent_traversals(authored_path(u@)) == (p.2 as nat, p.0@.skip(p.3 as int))
        },
{
    if u.len() == 0 || all_whitespace_exec(u) {
        return None;
    }
    if u[0] == '#' {
        assert(starts_with(u@, seq!['#'])) by {
            assert(u@.take(1) =~= seq!['#']);
        }
        return None;
    }
    assert(!starts_with(u@, seq!['#'])) by {
        if starts_with(u@, seq!['#']) {
            assert(u@.take(1)[0] == '#');
        }
    }
    if is_external_chars(u) {
        return None;
    }
    if u[0] == '/' {
        assert(starts_with(u@, seq!['/'])) by {
            assert(u@.take(1) =~= seq!['/']);
        }
        return None;
    }
    assert(!starts_with(u@, seq!['/'])) by {
        if starts_with(u@, seq!['/']) {
            assert(u@.take(1)[0] == '/');
        }
    }
    let (path0, suffix) = split_url_parts(u);
    if path0.len() == 0 {
        return None;
    }
    let path = if has_prefix(&path0, &['.', '/']) {
        copy_range(&path0, 2, path0.len())
    } else {
        path0
    };
    assert(path@ =~= authored_path(u@));
    let (pc, rem_start) = count_parent_traversals(&path);
    Some((path, suffix, pc, rem_start))
}

fn transform_chars(u: &Vec<char>, config: &LinkTransformConfig, target_is_page: bool) -> (r: Vec<char>)
    requires
        u@.len() + 8 <= usize::MAX,
        config.url_depth matches Some(d) ==> 3 * d + u@.len() + 2 <= usize::MAX,
    ensures
        r@ == transformed_link(u@, config@, target_is_page),
{
    let plan = plan_relative(u, config);
    match plan {
        None => {
            if u.len() > 0 && !all_whitespace_exec(u) && u[0] == '/' && !is_external_chars(u) {
                assert(starts_with(u@, seq!['/'])) by {
                    assert(u@.take(1) =~= seq!['/']);
                }
                assert(!starts_with(u@, seq!['#'])) by {
                    if starts_with(u@, seq!['#']) {
                        assert(u@.take(1)[0] == '#');
                    }
                }
                match config.url_depth {
                    Some(d) => relative_url_chars(u, d),
                    None => copy_range(u, 0, u.len()),
                }
            } else {
                let r = copy_range(u, 0, u.len());
                assert(r@ =~= u@);
                proof {
                    if u@.len() > 0 && !all_whitespace(u@) && !starts_with(u@, seq!['#']) && !is_external(u@) {
                        assert(!starts_with(u@, seq!['/'])) by {
                            if starts_with(u@, seq!['/']) {
                                assert(u@.take(1)[0] == '/');
                            }
                        }
                    }
                }
                r
            }
        },
        Some((path, suffix, pc, rem_start)) => {
            proof {
                lemma_find_suffix_start_bounds(u@, 0);
                assert(path@.len() <= u@.len());
                assert(suffix@.len() <= u@.len());
                assert(path@.len() + suffix@.len() <= u@.len());
                lemma_up_dirs_len(pc as nat);
                lemma_up_dirs_len((pc + 1) as nat);
            }
            let n = if config.is_index_file {
                pc
            } else {
                pc + 1
            };
            let prefix = up_dirs_exec(n);
            let rem = copy_range(&path, rem_start, path.len());
            proof {
                lemma_up_dirs_len(n as nat);
            }
            relative_result_exec(prefix, &rem, &suffix, config, target_is_page)
        },
    }
}

fn md_final_path_exec(base: &Vec<char>, index_file: &String) -> (r: Vec<char>)
    ensures
        r@ == md_final_path(base@, index_file@),
{
    let ic = chars_of(index_file.as_str());
    let stem = index_stem_exec(&ic);
    let mut slash_stem: Vec<char> = vec!['/'];
    push_all(&mut slash_stem, &stem);
    assert(slash_stem@ =~= seq!['/'] + stem@);
    let is_index_target = crate::text::chars_eq(base, &stem) || has_suffix(base, &slash_stem);
    if is_index_target {
        proof {
            if base@ != stem@ {
                assert(base@.len() >= stem@.len() + 1);
            }
        }
        let cut = base.len() - stem.len();
        let head = copy_range(base, 0, cut);
        assert(head@ =~= base@.take(cut as int));
        let n2 = trim_end_len(&head, '/');
        let mut final_path = copy_range(&head, 0, n2);
        assert(final_path@ =~= head@.take(n2 as int));
        if final_path.len() > 0 {
            final_path.push('/');
        } else {
            assert(final_path@ =~= Seq::<char>::empty());
        }
        final_path
    } else {
        let mut final_path = copy_range(base, 0, base.len());
        assert(final_path@ =~= base@);
        final_path.push('/');
        final_path
    }
}

fn relative_result_exec(
    prefix: Vec<char>,
    rem: &Vec<char>,
    suffix: &Vec<char>,
    config: &LinkTransformConfig,
    target_is_page: bool,
) -> (r: Vec<char>)
    requires
        prefix@.len() + rem@.len() + suffix@.len() + 4 <= usize::MAX,
    ensures
        r@ == relative_result(prefix@, rem@, suffix@, config@, target_is_page),
{
    let mut out = prefix;
    if rem.len() == 0 {
        push_all(&mut out, suffix);
        return out;
    }
    match strip_markdown_extension(rem, &config.markdown_extensions) {
        Some(base) => {
            let final_path = md_final_path_exec(&base, &config.index_file);
            if final_path.len() == 0 && out.len() == 0 {
                let mut r: Vec<char> = vec!['.', '/'];
                push_all(&mut r, suffix);
                r
            } else {
                push_all(&mut out, &final_path);
                push_all(&mut out, suffix);
                out
            }
        },
        None => {
            let ends_slash = rem[rem.len() - 1] == '/';
            assert(ends_slash == ends_with(rem@, seq!['/'])) by {
                if ends_slash {
                    assert(rem@.skip(rem@.len() - 1) =~= seq!['/']);
                }
                if ends_with(rem@, seq!['/']) {
                    assert(rem@.skip(rem@.len() - 1)[0] == rem@[rem@.len() - 1]);
                }
            }
            push_all(&mut out, rem);
            if !ends_slash && target_is_page {
                out.push('/');
            }
            push_all(&mut out, suffix);
            out
        },
    }
}

/// Transform a relative link URL for the trailing-slash URL convention,
/// with no repository to ask whether an extension-less target is a
/// markdown page (such targets are treated as static files).
///
/// 1. Blank and anchor-only links → unchanged
/// 2. External URLs (any scheme, or protocol-relative) → unchanged
/// 3. Root-relative URLs → unchanged, or relativized to `url_depth`
/// 4. Relative markdown links → `../` prefix (if not an index file), the
///    extension replaced by `/`, index files collapsed to their folder
/// 5. Other relative targets → `../` prefix (if not an index file)
pub fn transform_link(url: &str, config: &LinkTransformConfig) -> (r: String)
    requires
        url@.len() + 8 <= usize::MAX,
        config.url_depth matches Some(d) ==> 3 * d + url@.len() + 2 <= usize::MAX,
    ensures
        r@ == transformed_link(url@, config@, false),
{
    let u = chars_of(url);
    string_of(&transform_chars(&u, config, false))
}

/// The transform with the markdown-page question already answered:
/// `target_is_page` says whether the extension-less relative target (see
/// [`markdown_probe_target`]) names a markdown page.
pub fn transform_link_answered(url: &str, config: &LinkTransformConfig, target_is_page: bool) -> (r:
    String)
    requires
        url@.len() + 8 <= usize::MAX,
        config.url_depth matches Some(d) ==> 3 * d + url@.len() + 2 <= usize::MAX,
    ensures
        r@ == transformed_link(url@, config@, target_is_page),
{
    let u = chars_of(url);
    string_of(&transform_chars(&u, config, target_is_page))
}

/// Transform a link, asking `probe` whether an extension-less relative
/// target names a markdown page. The probe is called with the target's
/// absolute site URL (see [`markdown_probe_target`]) and only for such
/// targets, so a markdown page link gains the trailing slash its canonical
/// URL has while an extension-less static file (`LICENSE`) is left alone.
pub fn transform_link_with_probe<F: Fn(&str) -> bool>(url: &str, config: &LinkTransformConfig, probe: &F) -> (r:
    String)
    requires
        url@.len() + 8 <= usize::MAX,
        config.url_depth matches Some(d) ==> 3 * d + url@.len() + 2 <= usize::MAX,
        forall|s: &str| #[trigger] call_requires(*probe, (s,)),
    ensures
        probe_target(url@, config@) is None ==> r@ == transformed_link(url@, config@, false),
        probe_target(url@, config@) is Some ==> exists|s: &str, b: bool|
            s@ == probe_target(url@, config@)->0 && #[trigger] call_ensures(*probe, (s,), b) && r@
                == transformed_link(url@, config@, b),
{
    match markdown_probe_target(url, config) {
        None => transform_link(url, config),
        Some(target) => {
            let t: &str = target.as_str();
            let b = probe(t);
            let r = transform_link_answered(url, config, b);
            assert(call_ensures(*probe, (t,), b));
            r
        },
    }
}

// ---------------------------------------------------------------------------
// Relative URLs lead back
// ---------------------------------------------------------------------------

/// `n` parent steps (`..`).
pub open spec fn parent_steps(n: nat) -> Seq<Seq<char>> {
    Seq::new(n, |i: int| seq!['.', '.'])
}

/// Splitting `p + q` at `/` when `p` ends on a boundary splits `p` and `q`
/// apart.
pub(crate) proof fn lemma_seg_scan_concat(p: Seq<char>, q: Seq<char>)
    requires
        seg_scan(p).1.len() == 0,
    ensures
        seg_scan(p + q) == (seg_scan(p).0 + seg_scan(q).0, seg_scan(q).1),
    decreases q.len(),
{
    if q.len() == 0 {
        assert(p + q =~= p);
        assert(seg_scan(p).0 + seg_scan(q).0 =~= seg_scan(p).0);
    } else {
        let q1 = q.drop_last();
        lemma_seg_scan_concat(p, q1);
        assert((p + q).drop_last() =~= p + q1);
        assert((p + q).last() == q.last());
        let a = seg_scan(p).0;
        let b = seg_scan(q1);
        if q.last() == '/' {
            if b.1.len() > 0 {
                assert((a + b.0).push(b.1) =~= a + b.0.push(b.1));
            }
        }
    }
}

/// `"../"` repeated `n` times splits into `n` parent steps.
proof fn lemma_seg_scan_up_dirs(n: nat)
    ensures
        seg_scan(up_dirs(n)) == (parent_steps(n), Seq::<char>::empty()),
    decreases n,
{
    if n == 0 {
        assert(up_dirs(0) =~= Seq::<char>::empty());
        assert(parent_steps(0) =~= Seq::<Seq<char>>::empty());
    } else {
        lemma_seg_scan_up_dirs((n - 1) as nat);
        let step = seq!['.', '.', '/'];
        assert(up_dirs(n) == up_dirs((n - 1) as nat) + step);
        assert(step.drop_last() =~= seq!['.', '.']);
        assert(seq!['.', '.'].drop_last() =~= seq!['.']);
        assert(seq!['.'].drop_last() =~= Seq::<char>::empty());
        assert(seg_scan(Seq::<char>::empty()) == (Seq::<Seq<char>>::empty(), Seq::<char>::empty()));
        assert(seq!['.'].last() == '.');
        assert(seg_scan(seq!['.']) == (Seq::<Seq<char>>::empty(), Seq::<char>::empty().push('.')));
        assert(Seq::<char>::empty().push('.') =~= seq!['.']);
        assert(seq!['.', '.'].last() == '.');
        assert(step.last() == '/');
        assert(seq!['.'].push('.') =~= seq!['.', '.']);
        assert(seg_scan(seq!['.', '.']) == (Seq::<Seq<char>>::empty(), seq!['.', '.']));
        assert(seg_scan(step) == (Seq::<Seq<char>>::empty().push(seq!['.', '.']), Seq::<char>::empty()));
        lemma_seg_scan_concat(up_dirs((n - 1) as nat), step);
        assert(parent_steps((n - 1) as nat) + Seq::<Seq<char>>::empty().push(seq!['.', '.']) =~= parent_steps(n));
    }
}

/// Applying `a` and then `b` is applying `a + b`.
pub(crate) proof fn lemma_apply_clamped_concat(s: Seq<Seq<char>>, a: Seq<Seq<char>>, b: Seq<Seq<char>>)
    ensures
        apply_clamped(s, a + b) == apply_clamped(apply_clamped(s, a), b),
    decreases b.len(),
{
    if b.len() == 0 {
        assert(a + b =~= a);
    } else {
        lemma_apply_clamped_concat(s, a, b.drop_last());
        assert((a + b).drop_last() =~= a + b.drop_last());
        assert((a + b).last() == b.last());
    }
}

/// `"../"` repeated at least once starts with `.`.
proof fn lemma_up_dirs_first(n: nat)
    requires
        n > 0,
    ensures
        up_dirs(n).len() >= 3,
        up_dirs(n)[0] == '.',
    decreases n,
{
    lemma_up_dirs_len(n);
    if n > 1 {
        lemma_up_dirs_first((n - 1) as nat);
        assert(up_dirs(n) == up_dirs((n - 1) as nat) + seq!['.', '.', '/']);
    } else {
        assert(up_dirs(1) == up_dirs(0) + seq!['.', '.', '/']);
        assert(up_dirs(0) =~= Seq::<char>::empty());
    }
}

/// `n` parent steps from a directory at most `n` deep reach the root.
proof fn lemma_parent_steps_reach_root(s: Seq<Seq<char>>, n: nat)
    requires
        s.len() <= n,
    ensures
        apply_clamped(s, parent_steps(n)) == Seq::<Seq<char>>::empty(),
    decreases n,
{
    lemma_parent_steps_drop(s, n);
}

pub(crate) proof fn lemma_parent_steps_drop(s: Seq<Seq<char>>, n: nat)
    ensures
        apply_clamped(s, parent_steps(n)) == if n <= s.len() {
            s.take(s.len() - n)
        } else {
            Seq::<Seq<char>>::empty()
        },
    decreases n,
{
    if n == 0 {
        assert(parent_steps(0) =~= Seq::<Seq<char>>::empty());
        assert(s.take(s.len() as int) =~= s);
    } else {
        lemma_parent_steps_drop(s, (n - 1) as nat);
        assert(parent_steps(n).drop_last() =~= parent_steps((n - 1) as nat));
        assert(parent_steps(n).last() == seq!['.', '.']);
        assert(seq!['.', '.'] != seq!['.']) by {
            assert(seq!['.', '.'].len() != seq!['.'].len());
        }
        if n <= s.len() {
            assert(s.take(s.len() - (n - 1)).drop_last() =~= s.take(s.len() - n));
        }
    }
}

/// A root-relative URL made relative for a page `depth` folders deep (the
/// build's [`make_relative_url`]) leads back where it pointed: resolved
/// against any page URL at most that deep, index page or not, it names the
/// same directory that its path names from the root. An anchor-only URL
/// (`/#top`) is left out: resolution keeps anchors as they are.
pub proof fn law_relative_url_resolves_back(base: Seq<char>, absolute_url: Seq<char>, depth: nat, is_index_file: bool)
    requires
        segments(base).len() <= depth,
        !starts_with(trim_start(absolute_url, '/'), seq!['#']),
    ensures
        resolved_url(base, relative_url(absolute_url, depth), is_index_file) == dir_url(
            apply_clamped(Seq::empty(), segments(trim_start(absolute_url, '/'))),
        ),
{
    let target = trim_start(absolute_url, '/');
    let rel = relative_url(absolute_url, depth);
    let dir = link_base_dir(base, is_index_file);
    assert(dir.len() <= depth);
    lemma_trim_start_suffix(absolute_url, '/');
    assert(!starts_with(target, seq!['/'])) by {
        if starts_with(target, seq!['/']) {
            assert(target.take(1)[0] == '/');
            assert(target[0] == '/');
        }
    }
    lemma_seg_scan_up_dirs(depth);
    if target.len() == 0 {
        if depth == 0 {
            assert(rel == seq!['.', '/']);
            assert(!starts_with(rel, seq!['/'])) by { assert(rel.take(1)[0] == '.'); }
            assert(!starts_with(rel, seq!['#'])) by { assert(rel.take(1)[0] == '.'); }
            assert(seq!['.', '/'].drop_last() =~= seq!['.']);
            assert(seq!['.'].drop_last() =~= Seq::<char>::empty());
            assert(seg_scan(Seq::<char>::empty()) == (Seq::<Seq<char>>::empty(), Seq::<char>::empty()));
            assert(seq!['.'].last() == '.');
            assert(seq!['.', '/'].last() == '/');
            assert(Seq::<char>::empty().push('.') =~= seq!['.']);
            assert(seg_scan(seq!['.']) == (Seq::<Seq<char>>::empty(), seq!['.']));
            assert(seg_scan(seq!['.', '/']) == (Seq::<Seq<char>>::empty().push(seq!['.']), Seq::<char>::empty()));
            assert(segments(rel) =~= seq![seq!['.']]);
            assert(dir.len() == 0);
            assert(seq![seq!['.']].drop_last() =~= Seq::<Seq<char>>::empty());
            assert(seq![seq!['.']].last() == seq!['.']);
            assert(apply_clamped(dir, Seq::<Seq<char>>::empty()) == dir);
            assert(apply_clamped(dir, seq![seq!['.']]) == dir);
            assert(seg_scan(target) == (Seq::<Seq<char>>::empty(), Seq::<char>::empty()));
            assert(segments(target) =~= Seq::<Seq<char>>::empty());
            assert(dir =~= Seq::<Seq<char>>::empty());
            assert(resolved_url(base, rel, is_index_file) == dir_url(apply_clamped(dir, segments(rel))));
        } else {
            assert(rel == up_dirs(depth));
            lemma_up_dirs_first(depth);
            assert(rel[0] == '.');
            assert(!starts_with(rel, seq!['/'])) by { assert(rel.take(1)[0] == '.'); }
            assert(!starts_with(rel, seq!['#'])) by { assert(rel.take(1)[0] == '.'); }
            assert(segments(rel) == parent_steps(depth));
            lemma_parent_steps_reach_root(dir, depth);
            assert(seg_scan(target) == (Seq::<Seq<char>>::empty(), Seq::<char>::empty()));
            assert(segments(target) =~= Seq::<Seq<char>>::empty());
            assert(apply_clamped(Seq::<Seq<char>>::empty(), Seq::<Seq<char>>::empty()) == Seq::<Seq<char>>::empty());
        }
    } else {
        assert(rel == up_dirs(depth) + target);
        lemma_seg_scan_concat(up_dirs(depth), target);
        assert(segments(rel) =~= parent_steps(depth) + segments(target));
        if depth == 0 {
            assert(up_dirs(0) =~= Seq::<char>::empty());
            assert(rel =~= target);
            assert(dir.len() == 0);
            assert(dir =~= Seq::<Seq<char>>::empty());
            assert(parent_steps(0) =~= Seq::<Seq<char>>::empty());
            assert(parent_steps(0) + segments(target) =~= segments(target));
        } else {
            lemma_up_dirs_first(depth);
            assert(rel[0] == '.');
            assert(!starts_with(rel, seq!['/'])) by { assert(rel.take(1)[0] == '.'); }
            assert(!starts_with(rel, seq!['#'])) by { assert(rel.take(1)[0] == '.'); }
            lemma_apply_clamped_concat(dir, parent_steps(depth), segments(target));
            lemma_parent_steps_reach_root(dir, depth);
        }
    }
}

/// The round trip in a directory URL's own terms: a directory URL `/a/b/`
/// whose segments are plain names, made relative for a page `depth`
/// folders deep, resolves from any page at most that deep back to itself
/// (`/` included).
pub proof fn law_relative_url_round_trip(base: Seq<char>, segs: Seq<Seq<char>>, depth: nat, is_index_file: bool)
    requires
        forall|i: int| 0 <= i < segs.len() ==> crate::link_index::clean_segment(#[trigger] segs[i]),
        segments(base).len() <= depth,
    ensures
        resolved_url(base, relative_url(dir_url(segs), depth), is_index_file) == dir_url(segs),
{
    let u = dir_url(segs);
    crate::link_index::lemma_dir_url_shape(segs);
    crate::link_index::lemma_dir_url_scan(segs);
    crate::link_index::lemma_apply_clean_identity(segs);
    let t = trim_start(u, '/');
    if segs.len() == 0 {
        assert(u == seq!['/']);
        assert(u.drop_first() =~= Seq::<char>::empty());
        assert(u[0] == '/');
        assert(trim_start(Seq::<char>::empty(), '/') == Seq::<char>::empty());
        assert(t == trim_start(u.drop_first(), '/'));
        assert(t =~= Seq::<char>::empty());
        assert(seg_scan(Seq::<char>::empty()) == (Seq::<Seq<char>>::empty(), Seq::<char>::empty()));
        assert(segments(t) =~= Seq::<Seq<char>>::empty());
        assert(!starts_with(t, seq!['#']));
    } else {
        assert(crate::link_index::clean_segment(segs[0]));
        assert(u.drop_first()[0] == u[1]);
        assert(segs[0][0] != '/') by {
            assert(!segs[0].contains('/'));
        }
        assert(segs[0][0] != '#') by {
            assert(!segs[0].contains('#'));
        }
        assert(trim_start(u.drop_first(), '/') == u.drop_first());
        assert(t == u.drop_first());
        assert(u =~= seq!['/'] + u.drop_first());
        crate::link_index::lemma_seg_scan_slash(u.drop_first());
        assert(segments(t) == segs);
        assert(!starts_with(t, seq!['#'])) by {
            if starts_with(t, seq!['#']) {
                assert(t.take(1)[0] == t[0]);
            }
        }
    }
    law_relative_url_resolves_back(base, u, depth, is_index_file);
}

/// The transform never touches a link that leaves the repository or stays
/// on the page: anchor-only links and external URLs (any scheme, or
/// protocol-relative) come back as written; so do root-relative URLs when
/// no build depth is set.
pub proof fn law_transform_keeps_external_and_anchor_links(url: Seq<char>, cfg: LinkTransformConfigView, target_is_page: bool)
    ensures
        starts_with(url, seq!['#']) ==> transformed_link(url, cfg, target_is_page) == url,
        is_external(url) ==> transformed_link(url, cfg, target_is_page) == url,
        starts_with(url, seq!['/']) && cfg.url_depth is None ==> transformed_link(url, cfg, target_is_page) == url,
{
}

/// A character that neither ends a link's path (`#`, `?`) nor can make it
/// a URL with a scheme (`:`).
pub open spec fn plain_path_text(s: Seq<char>) -> bool {
    forall|j: int| 0 <= j < s.len() ==> #[trigger] s[j] != '#' && s[j] != '?' && s[j] != ':'
}

/// `s` holds no `.` (a bare extension name such as `md`).
pub open spec fn no_dot(s: Seq<char>) -> bool {
    forall|j: int| 0 <= j < s.len() ==> #[trigger] s[j] != '.'
}

/// A relative folder path as authored in a link: not empty, plain text,
/// neither rooted nor ending in `/`, and not the current or parent folder
/// (no leading `./` or `../`).
pub open spec fn plain_folder(dir: Seq<char>) -> bool {
    &&& dir.len() > 0
    &&& plain_path_text(dir)
    &&& dir[0] != '/'
    &&& dir.last() != '/'
    &&& dir != seq!['.']
    &&& dir != seq!['.', '.']
    &&& !starts_with(dir, seq!['.', '/'])
    &&& !starts_with(dir, seq!['.', '.', '/'])
}

proof fn lemma_no_suffix_start(s: Seq<char>, i: int)
    requires
        0 <= i,
        forall|j: int| i <= j < s.len() ==> #[trigger] s[j] != '#' && s[j] != '?',
    ensures
        find_suffix_start(s, i) is None,
    decreases s.len() - i,
{
    if i < s.len() {
        lemma_no_suffix_start(s, i + 1);
    }
}

/// Two dot-free extensions that a path both ends with (after a `.`) are
/// the same.
proof fn lemma_dot_suffix_unique(path: Seq<char>, a: Seq<char>, b: Seq<char>)
    requires
        ends_with(path, seq!['.'] + a),
        ends_with(path, seq!['.'] + b),
        no_dot(a),
        no_dot(b),
    ensures
        a == b,
{
    let n = path.len() as int;
    let sa = path.skip(n - a.len() - 1);
    let sb = path.skip(n - b.len() - 1);
    assert(sa == seq!['.'] + a);
    assert(sb == seq!['.'] + b);
    if a.len() < b.len() {
        assert(sa[0] == path[n - a.len() - 1]);
        assert(sb[b.len() - a.len()] == path[n - a.len() - 1]);
        assert((seq!['.'] + b)[b.len() - a.len()] == b[b.len() - a.len() - 1]);
        assert(b[b.len() - a.len() - 1] == '.');
    } else if b.len() < a.len() {
        assert(sb[0] == path[n - b.len() - 1]);
        assert(sa[a.len() - b.len()] == path[n - b.len() - 1]);
        assert((seq!['.'] + a)[a.len() - b.len()] == a[a.len() - b.len() - 1]);
        assert(a[a.len() - b.len() - 1] == '.');
    } else {
        assert forall|j: int| 0 <= j < a.len() implies a[j] == b[j] by {
            assert(sa[j + 1] == sb[j + 1]);
            assert((seq!['.'] + a)[j + 1] == a[j]);
            assert((seq!['.'] + b)[j + 1] == b[j]);
        }
        assert(a =~= b);
    }
}

/// A path that ends with exactly one of the configured extensions loses
/// that extension and its dot.
proof fn lemma_strip_exact(path: Seq<char>, exts: Seq<Seq<char>>, ext: Seq<char>)
    requires
        ends_with(path, seq!['.'] + ext),
        exts.contains(ext),
        forall|k: int| 0 <= k < exts.len() && ends_with(path, seq!['.'] + #[trigger] exts[k]) ==> exts[k] == ext,
    ensures
        strip_markdown_ext(path, exts) == Some(path.take(path.len() - ext.len() - 1)),
    decreases exts.len(),
{
    let k = choose|k: int| 0 <= k < exts.len() && exts[k] == ext;
    if ends_with(path, seq!['.'] + exts[0]) {
        assert(exts[0] == ext);
    } else {
        assert(k != 0);
        let rest = exts.drop_first();
        assert(rest[k - 1] == ext);
        assert(rest.contains(ext));
        assert forall|j: int| 0 <= j < rest.len() && ends_with(path, seq!['.'] + #[trigger] rest[j]) implies rest[j]
            == ext by {
            assert(rest[j] == exts[j + 1]);
        }
        lemma_strip_exact(path, rest, ext);
    }
}

/// The stem of `stem.md` or `stem.markdown` is `stem`.
proof fn lemma_index_stem(stem: Seq<char>, ext: Seq<char>)
    requires
        ext == seq!['m', 'd'] || ext == seq!['m', 'a', 'r', 'k', 'd', 'o', 'w', 'n'],
    ensures
        index_stem(stem + seq!['.'] + ext) == stem,
{
    let f = stem + seq!['.'] + ext;
    if ext == seq!['m', 'd'] {
        assert(f.skip(f.len() - 3) =~= seq!['.', 'm', 'd']);
        assert(f.take(f.len() - 3) =~= stem);
    } else {
        assert(f.skip(f.len() - 3)[0] == 'o');
        assert(!ends_with(f, seq!['.', 'm', 'd']));
        assert(f.skip(f.len() - 9) =~= seq!['.', 'm', 'a', 'r', 'k', 'd', 'o', 'w', 'n']);
        assert(f.take(f.len() - 9) =~= stem);
    }
}

/// The link `dir/` + index file, authored from a page, starts as neither
/// an anchor, an external URL nor a rooted path, has no `#`/`?` part, and
/// carries no `./` or `../` before its path.
proof fn lemma_plain_link_shape(dir: Seq<char>, tail: Seq<char>)
    requires
        plain_folder(dir),
        plain_path_text(tail),
    ensures
        ({
            let url = dir + seq!['/'] + tail;
            &&& url.len() > 0 && !all_whitespace(url)
            &&& !starts_with(url, seq!['#'])
            &&& !is_external(url)
            &&& !starts_with(url, seq!['/'])
            &&& url_parts(url) == (url, Seq::<char>::empty())
            &&& authored_path(url) == url
            &&& parent_traversals(url) == (0nat, url)
        }),
{
    let url = dir + seq!['/'] + tail;
    let n = dir.len() as int;
    assert(url[n] == '/');
    assert(!is_unicode_whitespace(url[n]));
    assert(url[0] == dir[0]);
    assert(url.take(1)[0] == url[0]);
    assert forall|j: int| 0 <= j < url.len() implies #[trigger] url[j] != '#' && url[j] != '?' && url[j] != ':' by {
        if j < n {
            assert(url[j] == dir[j]);
        } else if j > n {
            assert(url[j] == tail[j - n - 1]);
        }
    }
    assert(!has_scheme(url)) by {
        if has_scheme(url) {
            let k = choose|k: int|
                2 <= k < url.len() && #[trigger] url[k] == ':' && is_ascii_alpha(url[0]) && (forall|j: int|
                    1 <= j < k ==> #[trigger] is_scheme_char(url[j]));
            assert(url[k] != ':');
        }
    }
    assert(!starts_with(url, seq!['/', '/'])) by {
        if starts_with(url, seq!['/', '/']) {
            assert(url.take(2)[0] == url[0]);
        }
    }
    lemma_no_suffix_start(url, 0);
    assert(!starts_with(url, seq!['.', '/'])) by {
        if starts_with(url, seq!['.', '/']) {
            assert(url.take(2)[0] == url[0] && url.take(2)[1] == url[1]);
            if n >= 2 {
                assert(dir.take(2) =~= url.take(2));
            } else {
                assert(dir =~= seq!['.']);
            }
        }
    }
    assert(!starts_with(url, seq!['.', '.', '/'])) by {
        if starts_with(url, seq!['.', '.', '/']) {
            assert(url.take(3)[0] == url[0] && url.take(3)[1] == url[1] && url.take(3)[2] == url[2]);
            if n >= 3 {
                assert(dir.take(3) =~= url.take(3));
            } else if n == 2 {
                assert(dir =~= seq!['.', '.']);
            } else {
                assert(url[1] == '/');
            }
        }
    }
}

/// A link to a folder's index file collapses to the folder: for every
/// plain relative folder `dir` and an index file `stem.md` or
/// `stem.markdown` whose extension is one of the configured markdown
/// extensions (all bare names without a dot), the link `dir/<index file>`
/// becomes `dir/` from an index page and `../dir/` from a regular page.
pub proof fn law_index_links_collapse_to_their_folder(
    dir: Seq<char>,
    stem: Seq<char>,
    ext: Seq<char>,
    cfg: LinkTransformConfigView,
    target_is_page: bool,
)
    requires
        plain_folder(dir),
        plain_path_text(stem),
        ext == seq!['m', 'd'] || ext == seq!['m', 'a', 'r', 'k', 'd', 'o', 'w', 'n'],
        cfg.index_file == stem + seq!['.'] + ext,
        cfg.markdown_extensions.contains(ext),
        forall|k: int| 0 <= k < cfg.markdown_extensions.len() ==> no_dot(#[trigger] cfg.markdown_extensions[k]),
    ensures
        transformed_link(dir + seq!['/'] + cfg.index_file, cfg, target_is_page) == if cfg.is_index_file {
            dir + seq!['/']
        } else {
            seq!['.', '.', '/'] + dir + seq!['/']
        },
{
    let tail = cfg.index_file;
    let url = dir + seq!['/'] + tail;
    let base = dir + seq!['/'] + stem;
    assert(url =~= base + (seq!['.'] + ext));
    assert(plain_path_text(tail)) by {
        assert forall|j: int| 0 <= j < tail.len() implies #[trigger] tail[j] != '#' && tail[j] != '?' && tail[j]
            != ':' by {
            if j < stem.len() {
                assert(tail[j] == stem[j]);
            } else if j > stem.len() {
                assert(tail[j] == ext[j - stem.len() - 1]);
            }
        }
    }
    lemma_plain_link_shape(dir, tail);
    // The link ends with exactly its own extension.
    assert(url.skip(url.len() - ext.len() - 1) =~= seq!['.'] + ext);
    assert(no_dot(ext));
    assert forall|k: int|
        0 <= k < cfg.markdown_extensions.len() && ends_with(url, seq!['.'] + #[trigger] cfg.markdown_extensions[k])
        implies cfg.markdown_extensions[k] == ext by {
        lemma_dot_suffix_unique(url, cfg.markdown_extensions[k], ext);
    }
    lemma_strip_exact(url, cfg.markdown_extensions, ext);
    assert(url.take(url.len() - ext.len() - 1) =~= base);
    // The final segment is the index stem.
    lemma_index_stem(stem, ext);
    assert(base != stem) by {
        assert(base.len() != stem.len());
    }
    assert(base.skip(base.len() - (seq!['/'] + stem).len()) =~= seq!['/'] + stem);
    let kept = base.take(base.len() - stem.len());
    assert(kept =~= dir.push('/'));
    assert(kept.drop_last() =~= dir);
    assert(trim_end(kept, '/') == trim_end(dir, '/'));
    assert(trim_end(dir, '/') == dir);
    assert(md_final_path(base, cfg.index_file) == dir.push('/'));
    reveal_with_fuel(crate::text::repeat, 2);
    assert(up_dirs(0) =~= Seq::<char>::empty());
    assert(up_dirs(1) =~= seq!['.', '.', '/']);
    assert(dir.push('/') =~= dir + seq!['/']);
    if cfg.is_index_file {
        assert(Seq::<char>::empty() + dir.push('/') + Seq::<char>::empty() =~= dir + seq!['/']);
    } else {
        assert(seq!['.', '.', '/'] + dir.push('/') + Seq::<char>::empty() =~= seq!['.', '.', '/'] + dir + seq!['/']);
    }
}

/// A relative path of plain text is neither an anchor, an external URL nor
/// a rooted path, and has no `#`/`?` part.
pub(crate) proof fn lemma_plain_relative(p: Seq<char>)
    requires
        p.len() > 0,
        plain_path_text(p),
        p[0] != '/',
    ensures
        !starts_with(p, seq!['#']),
        !is_external(p),
        !starts_with(p, seq!['/']),
        url_parts(p) == (p, Seq::<char>::empty()),
{
    assert(p.take(1)[0] == p[0]);
    assert(!has_scheme(p)) by {
        if has_scheme(p) {
            let k = choose|k: int|
                2 <= k < p.len() && #[trigger] p[k] == ':' && is_ascii_alpha(p[0]) && (forall|j: int|
                    1 <= j < k ==> #[trigger] is_scheme_char(p[j]));
            assert(p[k] != ':');
        }
    }
    assert(!starts_with(p, seq!['/', '/'])) by {
        if starts_with(p, seq!['/', '/']) {
            assert(p.take(2)[0] == p[0]);
        }
    }
    lemma_no_suffix_start(p, 0);
}

/// A plain relative path, as the link itself, is neither an anchor, an
/// external URL nor a rooted path, has no `#`/`?` part, and carries no
/// `./` or `../` before it.
proof fn lemma_plain_path_shape(p: Seq<char>)
    requires
        plain_folder(p),
        !all_whitespace(p),
    ensures
        !starts_with(p, seq!['#']),
        !is_external(p),
        !starts_with(p, seq!['/']),
        url_parts(p) == (p, Seq::<char>::empty()),
        authored_path(p) == p,
        parent_traversals(p) == (0nat, p),
{
    lemma_plain_relative(p);
}

/// The transform's prefix for a path with no leading `../`: nothing from
/// an index page, one `../` from a regular page.
pub open spec fn page_prefix(cfg: LinkTransformConfigView) -> Seq<char> {
    if cfg.is_index_file {
        Seq::empty()
    } else {
        seq!['.', '.', '/']
    }
}

proof fn lemma_page_prefix(cfg: LinkTransformConfigView)
    ensures
        up_dirs(if cfg.is_index_file { 0nat } else { 1nat }) == page_prefix(cfg),
{
    reveal_with_fuel(crate::text::repeat, 2);
    assert(up_dirs(0) =~= Seq::<char>::empty());
    assert(up_dirs(1) =~= seq!['.', '.', '/']);
}

/// A relative link to a file that is no markdown page keeps its path:
/// from a regular page (served one folder deeper, at a trailing-slash URL)
/// it gains one `../`, from an index page nothing; a target known to be a
/// page gets a trailing slash.
pub proof fn law_relative_files_keep_their_path(path: Seq<char>, cfg: LinkTransformConfigView, target_is_page: bool)
    requires
        plain_folder(path),
        !all_whitespace(path),
        strip_markdown_ext(path, cfg.markdown_extensions) is None,
    ensures
        transformed_link(path, cfg, target_is_page) == if target_is_page {
            page_prefix(cfg) + path + seq!['/']
        } else {
            page_prefix(cfg) + path
        },
{
    lemma_plain_path_shape(path);
    lemma_page_prefix(cfg);
    assert(!ends_with(path, seq!['/'])) by {
        if ends_with(path, seq!['/']) {
            assert(path.skip(path.len() - 1)[0] == path.last());
        }
    }
    assert(page_prefix(cfg) + path + Seq::<char>::empty() =~= page_prefix(cfg) + path);
    assert(page_prefix(cfg) + path + seq!['/'] + Seq::<char>::empty() =~= page_prefix(cfg) + path + seq!['/']);
}

/// A relative link to a markdown file becomes the trailing-slash URL the
/// page is served at: `base.md` (for any configured extension, all bare
/// names without a dot) becomes `base/`, behind one `../` from a regular
/// page, unless its last segment is the index file's stem.
pub proof fn law_markdown_links_become_folders(
    base: Seq<char>,
    ext: Seq<char>,
    cfg: LinkTransformConfigView,
    target_is_page: bool,
)
    requires
        plain_folder(base + seq!['.'] + ext),
        cfg.markdown_extensions.contains(ext),
        forall|k: int| 0 <= k < cfg.markdown_extensions.len() ==> no_dot(#[trigger] cfg.markdown_extensions[k]),
        base != index_stem(cfg.index_file),
        !ends_with(base, seq!['/'] + index_stem(cfg.index_file)),
    ensures
        transformed_link(base + seq!['.'] + ext, cfg, target_is_page) == page_prefix(cfg) + base + seq!['/'],
{
    let path = base + seq!['.'] + ext;
    assert(path[base.len() as int] == '.');
    assert(!is_unicode_whitespace(path[base.len() as int]));
    lemma_plain_path_shape(path);
    lemma_page_prefix(cfg);
    let k0 = choose|k: int| 0 <= k < cfg.markdown_extensions.len() && cfg.markdown_extensions[k] == ext;
    assert(no_dot(cfg.markdown_extensions[k0]));
    assert(path.skip(path.len() - ext.len() - 1) =~= seq!['.'] + ext);
    assert forall|k: int|
        0 <= k < cfg.markdown_extensions.len() && ends_with(path, seq!['.'] + #[trigger] cfg.markdown_extensions[k])
        implies cfg.markdown_extensions[k] == ext by {
        lemma_dot_suffix_unique(path, cfg.markdown_extensions[k], ext);
    }
    lemma_strip_exact(path, cfg.markdown_extensions, ext);
    assert(path.take(path.len() - ext.len() - 1) =~= base);
    assert(md_final_path(base, cfg.index_file) == base.push('/'));
    assert(page_prefix(cfg) + base.push('/') + Seq::<char>::empty() =~= page_prefix(cfg) + base + seq!['/']);
}

} // verus!
