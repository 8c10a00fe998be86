//! Link rewriting for file moves and renames.
//!
//! When a markdown file is moved or renamed, links that reference it break
//! unless every referencing page is updated. The rewrites here are pure
//! functions of a page's text: links pointing at the moved page are
//! re-pointed with their style (absolute, relative, `./`), extension,
//! trailing slash, anchor, query and wiki display text preserved; the moved
//! page's own relative links are re-expressed against its new folder; and
//! bare `[[Name]]` links follow a rename.
//!
//! Link syntax is matched with regular expressions; the splicing of the
//! rebuilt links into the text, and every decision about a link, is done and
//! proved here.

use vstd::prelude::*;
use crate::link_grep::{ac_match, compute_relative_path, folder_url_path, gate_matches, get_folder_url_path, relative_path};
use crate::link_index::{is_internal_link, normalize_url_path, normalized_url_path, opt_view, resolve_relative_url, resolved_url};
use crate::link_transform::{split_url_parts, url_parts};
use crate::text::{
    chars_eq, chars_of, copy_range, ends_with, has_prefix, has_suffix, push_all, rfind_char, rfind_char_exec,
    starts_with, string_of, trim_end, trim_end_len, trim_start, trim_start_pos, views_of, lowercase, to_lowercase,
};
use crate::url_path::is_external;
use crate::regex_text::{
    alternation, alternation_of, group_chars, group_text, joined_groups, name_views, piece_views, regex_escape,
    regex_escaped, regex_pieces, regex_split, splice, spliced, views_of_vecs, PieceView, RegexPiece, pattern_of,
};

verus! {

broadcast use vstd::seq_lib::group_seq_properties;

// ---------------------------------------------------------------------------
// Small pieces
// ---------------------------------------------------------------------------

/// `str::trim_matches('/')`: `s` without leading or trailing slashes.
pub open spec fn trim_slashes(s: Seq<char>) -> Seq<char> {
    trim_end(trim_start(s, '/'), '/')
}

fn trim_slashes_chars(s: &[char]) -> (r: Vec<char>)
    ensures
        r@ == trim_slashes(s@),
{
    let a = trim_start_pos(s, '/');
    let t = copy_range(s, a, s.len());
    assert(t@ =~= trim_start(s@, '/'));
    let n = trim_end_len(&t, '/');
    let r = copy_range(&t, 0, n);
    assert(r@ =~= trim_slashes(s@));
    r
}

/// `/` followed by `url` without its leading and trailing slashes.
pub open spec fn absolute_form(url: Seq<char>) -> Seq<char> {
    seq!['/'] + trim_slashes(url)
}

fn absolute_form_chars(url: &str) -> (r: Vec<char>)
    ensures
        r@ == absolute_form(url@),
{
    let v = chars_of(url);
    let t = trim_slashes_chars(&v);
    let mut r: Vec<char> = vec!['/'];
    push_all(&mut r, &t);
    r
}

/// The candidate bases of links to `old_url` from a page in
/// `source_folder`: the absolute path, and unless the target is the folder
/// itself, the folder-relative path and its explicit `./` form (when it does
/// not already start with `./` or `../`).
pub open spec fn move_candidates(source_folder: Seq<char>, old_url: Seq<char>) -> Seq<Seq<char>> {
    let abs = absolute_form(old_url);
    let rel = relative_path(source_folder, old_url);
    if rel == seq!['.'] {
        seq![abs]
    } else if starts_with(rel, seq!['.', '.', '/']) || starts_with(rel, seq!['.', '/']) {
        seq![abs, rel]
    } else {
        seq![abs, rel, seq!['.', '/'] + rel]
    }
}

/// The non-empty elements of `s`, each kept at its first occurrence.
pub open spec fn kept_distinct(s: Seq<Seq<char>>) -> Seq<Seq<char>>
    decreases s.len(),
{
    if s.len() == 0 {
        Seq::empty()
    } else {
        let rest = kept_distinct(s.drop_last());
        if s.last().len() > 0 && !rest.contains(s.last()) {
            rest.push(s.last())
        } else {
            rest
        }
    }
}

/// Index of the first element of `sorted` shorter than `x`.
pub open spec fn first_shorter(sorted: Seq<Seq<char>>, x: Seq<char>, i: int) -> int
    decreases sorted.len() - i,
{
    if i >= sorted.len() || i < 0 {
        sorted.len() as int
    } else if sorted[i].len() < x.len() {
        i
    } else {
        first_shorter(sorted, x, i + 1)
    }
}

/// `s` sorted longest first, keeping the order of equally long elements
/// (a stable sort by descending length).
pub open spec fn longest_first(s: Seq<Seq<char>>) -> Seq<Seq<char>>
    decreases s.len(),
{
    if s.len() == 0 {
        Seq::empty()
    } else {
        let sorted = longest_first(s.drop_last());
        sorted.insert(first_shorter(sorted, s.last(), 0), s.last())
    }
}

/// What [`collect_move_bases`] returns: the distinct non-empty candidate
/// bases, longest first.
pub open spec fn move_bases(source_folder: Seq<char>, old_url: Seq<char>) -> Seq<Seq<char>> {
    longest_first(kept_distinct(move_candidates(source_folder, old_url)))
}

proof fn lemma_first_shorter_bounds(sorted: Seq<Seq<char>>, x: Seq<char>, i: int)
    requires
        0 <= i <= sorted.len(),
    ensures
        i <= first_shorter(sorted, x, i) <= sorted.len(),
    decreases sorted.len() - i,
{
    if i < sorted.len() && sorted[i].len() >= x.len() {
        lemma_first_shorter_bounds(sorted, x, i + 1);
    }
}

fn contains_chars(v: &Vec<Vec<char>>, x: &Vec<char>) -> (r: bool)
    ensures
        r == views_of_vecs(v@).contains(x@),
{
    let mut k: usize = 0;
    while k < v.len()
        invariant
            k <= v@.len(),
            forall|j: int| 0 <= j < k ==> #[trigger] v@[j]@ != x@,
        decreases v@.len() - k,
    {
        if chars_eq(&v[k], x) {
            assert(views_of_vecs(v@)[k as int] == x@);
            return true;
        }
        k += 1;
    }
    assert(!views_of_vecs(v@).contains(x@)) by {
        if views_of_vecs(v@).contains(x@) {
            let j = choose|j: int| 0 <= j < views_of_vecs(v@).len() && views_of_vecs(v@)[j] == x@;
            assert(v@[j]@ == x@);
        }
    }
    false
}

fn insert_longest_first(sorted: &mut Vec<Vec<char>>, x: Vec<char>)
    ensures
        views_of_vecs(final(sorted)@) == views_of_vecs(old(sorted)@).insert(
            first_shorter(views_of_vecs(old(sorted)@), x@, 0),
            x@,
        ),
{
    let ghost sv = views_of_vecs(sorted@);
    let mut i: usize = 0;
    while i < sorted.len() && sorted[i].len() >= x.len()
        invariant
            sv == views_of_vecs(sorted@),
            i <= sorted@.len(),
            first_shorter(sv, x@, 0) == first_shorter(sv, x@, i as int),
        decreases sorted@.len() - i,
    {
        assert(sv[i as int] == sorted@[i as int]@);
        i += 1;
    }
    proof {
        if i < sorted@.len() {
            assert(sv[i as int] == sorted@[i as int]@);
        }
        lemma_first_shorter_bounds(sv, x@, i as int);
    }
    sorted.insert(i, x);
    assert(views_of_vecs(sorted@) =~= sv.insert(i as int, x@));
}

/// The bare link bases that could reference `old_url` from a page in
/// `source_folder`: the absolute path, the folder-relative path and, when
/// applicable, its explicit `./` form. Longest first, deduplicated.
pub fn collect_move_bases(source_folder: &str, old_url: &str) -> (r: Vec<String>)
    ensures
        views_of(r@) == move_bases(source_folder@, old_url@),
{
    let abs = absolute_form_chars(old_url);
    let rel_s = compute_relative_path(source_folder, old_url);
    let rel = chars_of(rel_s.as_str());
    let mut cands: Vec<Vec<char>> = Vec::new();
    cands.push(abs);
    let dot: Vec<char> = vec!['.'];
    let up: Vec<char> = vec!['.', '.', '/'];
    let here: Vec<char> = vec!['.', '/'];
    assert(dot@ =~= seq!['.']);
    assert(up@ =~= seq!['.', '.', '/']);
    assert(here@ =~= seq!['.', '/']);
    if !chars_eq(&rel, &dot) {
        cands.push(copy_range(&rel, 0, rel.len()));
        if !has_prefix(&rel, &up) && !has_prefix(&rel, &here) {
            let mut d: Vec<char> = vec!['.', '/'];
            push_all(&mut d, &rel);
            assert(d@ =~= seq!['.', '/'] + rel@);
            cands.push(d);
        }
    }
    assert(views_of_vecs(cands@) =~= move_candidates(source_folder@, old_url@));
    let ghost cv = views_of_vecs(cands@);
    // Keep the first occurrence of each non-empty base.
    let mut kept: Vec<Vec<char>> = Vec::new();
    let mut i: usize = 0;
    while i < cands.len()
        invariant
            cv == views_of_vecs(cands@),
            i <= cands@.len(),
            views_of_vecs(kept@) == kept_distinct(cv.take(i as int)),
        decreases cands@.len() - i,
    {
        assert(cv.take(i + 1).drop_last() =~= cv.take(i as int));
        assert(cv[i as int] == cands@[i as int]@);
        if cands[i].len() > 0 && !contains_chars(&kept, &cands[i]) {
            let ghost before = kept@;
            kept.push(copy_range(&cands[i], 0, cands[i].len()));
            assert(views_of_vecs(kept@) =~= views_of_vecs(before).push(cv[i as int]));
        }
        i += 1;
    }
    assert(cv.take(i as int) =~= cv);
    let ghost kv = views_of_vecs(kept@);
    // Stable sort, longest first.
    let mut sorted: Vec<Vec<char>> = Vec::new();
    let mut j: usize = 0;
    while j < kept.len()
        invariant
            kv == views_of_vecs(kept@),
            j <= kept@.len(),
            views_of_vecs(sorted@) == longest_first(kv.take(j as int)),
        decreases kept@.len() - j,
    {
        assert(kv.take(j + 1).drop_last() =~= kv.take(j as int));
        assert(kv[j as int] == kept@[j as int]@);
        insert_longest_first(&mut sorted, copy_range(&kept[j], 0, kept[j].len()));
        j += 1;
    }
    assert(kv.take(j as int) =~= kv);
    let mut out: Vec<String> = Vec::new();
    let mut k: usize = 0;
    while k < sorted.len()
        invariant
            k <= sorted@.len(),
            out@.len() == k,
            forall|m: int| 0 <= m < k ==> #[trigger] out@[m]@ == sorted@[m]@,
        decreases sorted@.len() - k,
    {
        out.push(string_of(&sorted[k]));
        k += 1;
    }
    assert(views_of(out@) =~= views_of_vecs(sorted@));
    out
}

/// What [`reclassify_target`] returns: the new target in the style of the
/// matched one (absolute, `./`-relative or relative).
pub open spec fn reclassified(matched: Seq<char>, new_abs: Seq<char>, new_rel: Seq<char>) -> Seq<char> {
    if starts_with(matched, seq!['/']) {
        new_abs
    } else if starts_with(matched, seq!['.', '/']) {
        seq!['.', '/'] + new_rel
    } else {
        new_rel
    }
}

/// Classifies a matched link target and returns the replacement target that
/// preserves the original absolute-vs-relative style.
pub fn reclassify_target(matched: &str, new_abs: &str, new_rel: &str) -> (r: String)
    ensures
        r@ == reclassified(matched@, new_abs@, new_rel@),
{
    let m = chars_of(matched);
    let slash: Vec<char> = vec!['/'];
    let here: Vec<char> = vec!['.', '/'];
    assert(slash@ =~= seq!['/']);
    assert(here@ =~= seq!['.', '/']);
    if has_prefix(&m, &slash) {
        new_abs.to_owned()
    } else if has_prefix(&m, &here) {
        let mut r: Vec<char> = vec!['.', '/'];
        let n = chars_of(new_rel);
        push_all(&mut r, &n);
        assert(r@ =~= seq!['.', '/'] + new_rel@);
        string_of(&r)
    } else {
        new_rel.to_owned()
    }
}

/// What [`folder_of`] returns: the folder a page lives in, as a folder URL
/// ending in `/`.
pub open spec fn page_folder(url: Seq<char>, is_index: bool) -> Seq<char> {
    if is_index {
        let t = trim_end(url, '/');
        if t.len() == 0 {
            seq!['/']
        } else {
            t.push('/')
        }
    } else {
        folder_url_path(url)
    }
}

/// The folder a page lives in: for an index page the URL itself, for any
/// other page the parent of its last segment.
pub fn folder_of(url: &str, is_index: bool) -> (r: String)
    ensures
        r@ == page_folder(url@, is_index),
{
    if is_index {
        let v = chars_of(url);
        let n = trim_end_len(&v, '/');
        if n == 0 {
            string_of(&['/'])
        } else {
            let mut t = copy_range(&v, 0, n);
            t.push('/');
            assert(t@ =~= trim_end(url@, '/').push('/'));
            string_of(&t)
        }
    } else {
        get_folder_url_path(url)
    }
}

// ---------------------------------------------------------------------------
// Relocating the moved page's own links
// ---------------------------------------------------------------------------

/// `ext` is one of the configured markdown extensions.
pub open spec fn is_markdown_extension(ext: Seq<char>, exts: Seq<String>) -> bool {
    exists|i: int| 0 <= i < exts.len() && #[trigger] exts[i]@ == ext
}

fn is_markdown_extension_exec(ext: &str, exts: &[String]) -> (r: bool)
    ensures
        r == is_markdown_extension(ext@, exts@),
{
    let e = chars_of(ext);
    let mut i: usize = 0;
    while i < exts.len()
        invariant
            e@ == ext@,
            i <= exts@.len(),
            forall|j: int| 0 <= j < i ==> #[trigger] exts@[j]@ != ext@,
        decreases exts@.len() - i,
    {
        let c = chars_of(exts[i].as_str());
        if chars_eq(&c, &e) {
            return true;
        }
        i += 1;
    }
    false
}

/// The last path segment of `path` once trailing slashes are removed.
pub open spec fn last_segment(path: Seq<char>) -> Seq<char> {
    let t = trim_end(path, '/');
    match rfind_char(t, '/') {
        Some(k) => t.skip(k + 1),
        None => t,
    }
}

/// What [`markdown_ext_suffix`] returns: `.ext` when the last segment of
/// `path` has an extension that, lower-cased, is a markdown extension.
pub open spec fn md_suffix(path: Seq<char>, exts: Seq<String>) -> Option<Seq<char>> {
    let last = last_segment(path);
    match rfind_char(last, '.') {
        Some(k) => {
            let ext = last.skip(k + 1);
            if is_markdown_extension(lowercase(ext), exts) {
                Some(seq!['.'] + ext)
            } else {
                None
            }
        },
        None => None,
    }
}

/// The original markdown extension suffix (e.g. `.md`) if the last path
/// segment of `path` ends in a configured markdown extension.
pub fn markdown_ext_suffix(path: &str, exts: &[String]) -> (r: Option<String>)
    ensures
        opt_view(r) == md_suffix(path@, exts@),
{
    let v = chars_of(path);
    let n = trim_end_len(&v, '/');
    let t = copy_range(&v, 0, n);
    proof {
        crate::text::lemma_rfind_bounds(t@, '/');
    }
    let last = match rfind_char_exec(&t, '/') {
        Some(k) => {
            let l = copy_range(&t, k + 1, t.len());
            assert(l@ =~= t@.skip(k + 1));
            l
        },
        None => t,
    };
    proof {
        crate::text::lemma_rfind_bounds(last@, '.');
    }
    match rfind_char_exec(&last, '.') {
        Some(k) => {
            let ext = copy_range(&last, k + 1, last.len());
            assert(ext@ =~= last@.skip(k + 1));
            let ext_s = string_of(&ext);
            let lower = to_lowercase(ext_s.as_str());
            if is_markdown_extension_exec(lower.as_str(), exts) {
                let mut r: Vec<char> = vec!['.'];
                push_all(&mut r, &ext);
                assert(r@ =~= seq!['.'] + ext@);
                Some(string_of(&r))
            } else {
                None
            }
        },
        None => None,
    }
}

/// The target resolved for relocation: a markdown path (`intro.md`) in its
/// page-URL form (`intro/`), anything else as written.
pub open spec fn resolvable_form(path_part: Seq<char>, md: Option<Seq<char>>) -> Seq<char> {
    match md {
        Some(ext) => (if ends_with(path_part, ext) {
            path_part.take(path_part.len() - ext.len())
        } else {
            path_part
        }).push('/'),
        None => path_part,
    }
}

/// What [`relocate_link_target`] returns.
pub open spec fn relocated(
    target: Seq<char>,
    old_url: Seq<char>,
    old_is_index: bool,
    new_folder: Seq<char>,
    new_url: Seq<char>,
    exts: Seq<String>,
) -> Option<Seq<char>> {
    if target.len() == 0 || starts_with(target, seq!['/']) || starts_with(target, seq!['#']) || is_external(
        target,
    ) {
        None
    } else {
        let path_part = url_parts(target).0;
        let suffix = url_parts(target).1;
        if path_part.len() == 0 {
            None
        } else {
            let md = md_suffix(path_part, exts);
            let abs0 = resolved_url(old_url, resolvable_form(path_part, md), old_is_index);
            let abs = if normalized_url_path(abs0) == normalized_url_path(old_url) {
                normalized_url_path(new_url)
            } else {
                abs0
            };
            let core = relative_path(new_folder, abs);
            if core == seq!['.'] {
                None
            } else {
                let lead = if starts_with(path_part, seq!['.', '/']) && !starts_with(core, seq!['.', '.']) {
                    seq!['.', '/']
                } else {
                    Seq::empty()
                };
                let tail = match md {
                    Some(ext) => ext,
                    None => if ends_with(path_part, seq!['/']) {
                        seq!['/']
                    } else {
                        Seq::empty()
                    },
                };
                Some(lead + core + tail + suffix)
            }
        }
    }
}

/// Re-expresses a single relative link `target` (from the moved file's old
/// location) so it points at the same destination from the new folder.
///
/// `None` (leave the link unchanged) for absolute, anchor-only and external
/// targets, and when the destination is the new folder itself. A link that
/// resolves to the moved file itself is re-pointed at `new_url`.
pub fn relocate_link_target(
    target: &str,
    old_url: &str,
    old_is_index: bool,
    new_folder: &str,
    new_url: &str,
    exts: &[String],
) -> (r: Option<String>)
    ensures
        opt_view(r) == relocated(target@, old_url@, old_is_index, new_folder@, new_url@, exts@),
{
    let t = chars_of(target);
    let slash: Vec<char> = vec!['/'];
    let hash: Vec<char> = vec!['#'];
    let here: Vec<char> = vec!['.', '/'];
    let up: Vec<char> = vec!['.', '.'];
    let dot: Vec<char> = vec!['.'];
    assert(slash@ =~= seq!['/']);
    assert(hash@ =~= seq!['#']);
    assert(here@ =~= seq!['.', '/']);
    assert(up@ =~= seq!['.', '.']);
    assert(dot@ =~= seq!['.']);
    if t.len() == 0 || has_prefix(&t, &slash) || has_prefix(&t, &hash) || !is_internal_link(target) {
        return None;
    }
    let (path_part, suffix) = split_url_parts(&t);
    if path_part.len() == 0 {
        return None;
    }
    let pp = string_of(&path_part);
    let md = markdown_ext_suffix(pp.as_str(), exts);
    let rel: Vec<char> = match &md {
        Some(ext) => {
            let e = chars_of(ext.as_str());
            let mut b = if has_suffix(&path_part, &e) {
                copy_range(&path_part, 0, path_part.len() - e.len())
            } else {
                copy_range(&path_part, 0, path_part.len())
            };
            b.push('/');
            b
        },
        None => copy_range(&path_part, 0, path_part.len()),
    };
    assert(rel@ =~= resolvable_form(path_part@, opt_view(md)));
    let rel_s = string_of(&rel);
    let mut abs = resolve_relative_url(old_url, rel_s.as_str(), old_is_index);
    let na = normalize_url_path(abs.as_str());
    let no = normalize_url_path(old_url);
    let nac = chars_of(na.as_str());
    let noc = chars_of(no.as_str());
    if chars_eq(&nac, &noc) {
        abs = normalize_url_path(new_url);
    }
    let core_s = compute_relative_path(new_folder, abs.as_str());
    let core = chars_of(core_s.as_str());
    if chars_eq(&core, &dot) {
        return None;
    }
    let mut out: Vec<char> = Vec::new();
    if has_prefix(&path_part, &here) && !has_prefix(&core, &up) {
        out.push('.');
        out.push('/');
    }
    push_all(&mut out, &core);
    match &md {
        Some(ext) => {
            let e = chars_of(ext.as_str());
            push_all(&mut out, &e);
        },
        None => {
            if has_suffix(&path_part, &slash) {
                out.push('/');
            }
        },
    }
    push_all(&mut out, &suffix);
    assert(out@ =~= relocated(target@, old_url@, old_is_index, new_folder@, new_url@, exts@)->0);
    Some(string_of(&out))
}

// ---------------------------------------------------------------------------
// Re-pointing links to a moved page
// ---------------------------------------------------------------------------

/// Inline link `[text](target(.md)?(/)?(#anchor|?query)?)`, around the
/// alternation of bases.
pub const INLINE_HEAD: &'static str = r"(?P<pre>\[[^\]]*\]\()(?P<t>";
pub const INLINE_TAIL: &'static str = r")(?P<ext>(?:\.md)?)(?P<slash>/?)(?P<suf>(?:[#?][^)]*)?)(?P<post>\))";
pub const INLINE_GROUPS: [&'static str; 6] = ["pre", "t", "ext", "slash", "suf", "post"];

/// Reference definition `[ref]: target(.md)?(/)?(#anchor)?` at the start of
/// a line, followed by a blank or the end of the line.
pub const REF_HEAD: &'static str = r"(?m)(?P<pre>^[ \t]*\[[^\]]+\]:[ \t]*)(?P<t>";
pub const REF_TAIL: &'static str = r")(?P<ext>(?:\.md)?)(?P<slash>/?)(?P<suf>(?:[#?]\S*)?)(?P<b>[ \t]|$)";
pub const REF_GROUPS: [&'static str; 6] = ["pre", "t", "ext", "slash", "suf", "b"];

/// Path-style wiki link `[[dir/target(.md)?(/)?(#anchor)?(|display)?]]`,
/// case-insensitively.
pub const WIKI_HEAD: &'static str = r"(?i)(?P<pre>\[\[)(?P<t>";
pub const WIKI_TAIL: &'static str = r")(?P<ext>(?:\.md)?)(?P<slash>/?)(?P<anchor>(?:#[^\]|]*)?)(?P<disp>(?:\|[^\]]*)?)(?P<post>\]\])";
pub const WIKI_GROUPS: [&'static str; 7] = ["pre", "t", "ext", "slash", "anchor", "disp", "post"];

/// A matched link rebuilt from its groups, with its target (the second
/// group) in the style of the original.
pub open spec fn move_rep(gs: Seq<Option<Seq<char>>>, new_abs: Seq<char>, new_rel: Seq<char>) -> Seq<char> {
    joined_groups(gs.update(1, Some(reclassified(group_text(gs[1]), new_abs, new_rel))))
}

/// `text` with every match of `pattern` rebuilt by [`move_rep`], or `text`
/// itself when the pattern does not compile.
pub open spec fn move_step(
    pattern: Seq<char>,
    text: Seq<char>,
    names: Seq<Seq<char>>,
    new_abs: Seq<char>,
    new_rel: Seq<char>,
) -> Seq<char> {
    match regex_pieces(pattern, text, names) {
        Some(p) => spliced(p.0, p.1, p.0.map_values(|pv: PieceView| move_rep(pv.2, new_abs, new_rel))),
        None => text,
    }
}

fn move_rep_of(groups: &Vec<Option<String>>, new_abs: &str, new_rel: &str) -> (r: Vec<char>)
    requires
        groups@.len() > 1,
    ensures
        r@ == move_rep(groups@.map_values(|g: Option<String>| opt_view(g)), new_abs@, new_rel@),
{
    let ghost gv = groups@.map_values(|g: Option<String>| opt_view(g));
    let t = group_chars(&groups[1]);
    let ts = string_of(&t);
    let target = reclassify_target(ts.as_str(), new_abs, new_rel);
    let ghost upd = gv.update(1, Some(target@));
    let mut out: Vec<char> = Vec::new();
    let mut j: usize = 0;
    while j < groups.len()
        invariant
            gv == groups@.map_values(|g: Option<String>| opt_view(g)),
            upd == gv.update(1, Some(target@)),
            groups@.len() > 1,
            j <= groups@.len(),
            out@ == joined_groups(upd.take(j as int)),
        decreases groups@.len() - j,
    {
        assert(upd.take(j + 1).drop_last() =~= upd.take(j as int));
        if j == 1 {
            let tc = chars_of(target.as_str());
            push_all(&mut out, &tc);
        } else {
            assert(upd[j as int] == opt_view(groups@[j as int]));
            let g = group_chars(&groups[j]);
            push_all(&mut out, &g);
        }
        j += 1;
    }
    assert(upd.take(j as int) =~= upd);
    out
}

fn apply_move_step(pattern: &str, text: String, names: &[&str], new_abs: &str, new_rel: &str) -> (r: String)
    requires
        names@.len() > 1,
    ensures
        r@ == move_step(pattern@, text@, name_views(names@), new_abs@, new_rel@),
{
    match regex_split(pattern, text.as_str(), names) {
        None => text,
        Some((pieces, tail)) => {
            let ghost pv = piece_views(pieces@);
            let mut reps: Vec<Vec<char>> = Vec::new();
            let mut i: usize = 0;
            while i < pieces.len()
                invariant
                    pv == piece_views(pieces@),
                    names@.len() > 1,
                    forall|k: int| 0 <= k < pieces@.len() ==> (#[trigger] pieces@[k]).groups@.len() == names@.len(),
                    i <= pieces@.len(),
                    reps@.len() == i,
                    forall|k: int| 0 <= k < i ==> #[trigger] reps@[k]@ == move_rep(pv[k].2, new_abs@, new_rel@),
                decreases pieces@.len() - i,
            {
                assert(pieces@[i as int].groups@.len() == names@.len());
                reps.push(move_rep_of(&pieces[i].groups, new_abs, new_rel));
                i += 1;
            }
            assert(views_of_vecs(reps@) =~= pv.map_values(|p: PieceView| move_rep(p.2, new_abs@, new_rel@)));
            splice(&pieces, &tail, &reps)
        },
    }
}

/// The bases that hold a `/`, the only ones a path-style wiki link can use.
pub open spec fn wiki_bases(bases: Seq<Seq<char>>) -> Seq<Seq<char>> {
    bases.filter(|b: Seq<char>| b.contains('/'))
}

/// What [`rewrite_links_for_move`] returns.
pub open spec fn moved_links(old_url: Seq<char>, new_url: Seq<char>, source_folder: Seq<char>, content: Seq<char>) -> Seq<
    char,
> {
    if trim_slashes(old_url).len() == 0 {
        content
    } else {
        let bases = move_bases(source_folder, old_url);
        if bases.len() == 0 {
            content
        } else {
            let new_abs = absolute_form(new_url);
            let new_rel = relative_path(source_folder, new_url);
            let alt = alternation(bases);
            let inline = move_step(
                INLINE_HEAD@ + alt + INLINE_TAIL@,
                content,
                name_views(INLINE_GROUPS@),
                new_abs,
                new_rel,
            );
            let refs = move_step(REF_HEAD@ + alt + REF_TAIL@, inline, name_views(REF_GROUPS@), new_abs, new_rel);
            let wb = wiki_bases(bases);
            if wb.len() == 0 {
                refs
            } else {
                move_step(
                    WIKI_HEAD@ + alternation(wb) + WIKI_TAIL@,
                    refs,
                    name_views(WIKI_GROUPS@),
                    new_abs,
                    new_rel,
                )
            }
        }
    }
}

fn has_slash(s: &str) -> (r: bool)
    ensures
        r == s@.contains('/'),
{
    let v = chars_of(s);
    let mut i: usize = 0;
    while i < v.len()
        invariant
            v@ == s@,
            i <= v@.len(),
            forall|j: int| 0 <= j < i ==> v@[j] != '/',
        decreases v@.len() - i,
    {
        if v[i] == '/' {
            return true;
        }
        i += 1;
    }
    false
}

/// Rewrites every link in `content` that points at `old_url` so it points at
/// `new_url`, as seen from a file living in `source_folder` (a folder URL
/// such as `/docs/`).
///
/// Handles inline links `[t](target)`, reference definitions
/// `[ref]: target`, and path-style wiki links `[[dir/target]]`. The link
/// style (absolute, relative, `./`), any `.md` extension, trailing slash,
/// `#anchor`, `?query` and wiki `|display` are kept. Bare `[[Name]]` links
/// are left alone.
pub fn rewrite_links_for_move(old_url: &str, new_url: &str, source_folder: &str, content: &str) -> (r: String)
    ensures
        r@ == moved_links(old_url@, new_url@, source_folder@, content@),
{
    let ov = chars_of(old_url);
    if trim_slashes_chars(&ov).len() == 0 {
        return content.to_owned();
    }
    let bases = collect_move_bases(source_folder, old_url);
    if bases.len() == 0 {
        return content.to_owned();
    }
    let new_abs = string_of(&absolute_form_chars(new_url));
    let new_rel = compute_relative_path(source_folder, new_url);
    let alt = alternation_of(&bases);
    let inline = pattern_of(INLINE_HEAD, alt.as_str(), INLINE_TAIL);
    let out = apply_move_step(inline.as_str(), content.to_owned(), &INLINE_GROUPS, new_abs.as_str(), new_rel.as_str());
    let refdef = pattern_of(REF_HEAD, alt.as_str(), REF_TAIL);
    let out = apply_move_step(refdef.as_str(), out, &REF_GROUPS, new_abs.as_str(), new_rel.as_str());
    let mut wiki: Vec<String> = Vec::new();
    let ghost bv = views_of(bases@);
    let mut i: usize = 0;
    while i < bases.len()
        invariant
            bv == views_of(bases@),
            i <= bases@.len(),
            views_of(wiki@) == wiki_bases(bv.take(i as int)),
        decreases bases@.len() - i,
    {
        assert(bv.take(i + 1).drop_last() =~= bv.take(i as int));
        assert(bv[i as int] == bases@[i as int]@);
        proof {
            broadcast use vstd::seq_lib::group_filter_ensures;
            reveal(Seq::filter);
        }
        if has_slash(bases[i].as_str()) {
            let ghost before = wiki@;
            wiki.push(bases[i].clone());
            assert(views_of(wiki@) =~= views_of(before).push(bases@[i as int]@));
        }
        assert(wiki_bases(bv.take(i + 1)) =~= if bv[i as int].contains('/') {
            wiki_bases(bv.take(i as int)).push(bv[i as int])
        } else {
            wiki_bases(bv.take(i as int))
        });
        i += 1;
    }
    assert(bv.take(i as int) =~= bv);
    if wiki.len() == 0 {
        return out;
    }
    let walt = alternation_of(&wiki);
    let wp = pattern_of(WIKI_HEAD, walt.as_str(), WIKI_TAIL);
    apply_move_step(wp.as_str(), out, &WIKI_GROUPS, new_abs.as_str(), new_rel.as_str())
}

// ---------------------------------------------------------------------------
// The moved page's own links
// ---------------------------------------------------------------------------

/// Inline link `[text](url optional-title)`.
pub const OUT_INLINE: &'static str = r"(?P<pre>\[[^\]]*\]\()(?P<url>[^)\s]+)(?P<rest>(?:\s+[^)]*)?)(?P<post>\))";
pub const OUT_INLINE_GROUPS: [&'static str; 4] = ["pre", "url", "rest", "post"];

/// Reference definition `[ref]: url optional-title`.
pub const OUT_REF: &'static str = r"(?m)(?P<pre>^[ \t]*\[[^\]]+\]:[ \t]*)(?P<url>\S+)(?P<post>.*)$";
pub const OUT_REF_GROUPS: [&'static str; 3] = ["pre", "url", "post"];

/// Wiki link `[[target#anchor|display]]`.
pub const OUT_WIKI: &'static str = r"(?P<pre>\[\[)(?P<url>[^\]|#]+)(?P<anchor>(?:#[^\]|]*)?)(?P<disp>(?:\|[^\]]*)?)(?P<post>\]\])";
pub const OUT_WIKI_GROUPS: [&'static str; 5] = ["pre", "url", "anchor", "disp", "post"];

/// Where the moved page came from and where it goes.
struct MoveContext<'a> {
    pub old_url: &'a str,
    pub old_is_index: bool,
    pub new_folder: &'a str,
    pub new_url: &'a str,
    pub exts: &'a [String],
}

/// A matched link of the moved page, rebuilt with its target relocated, or
/// the match unchanged when the target stays (`wiki`: only path-style
/// targets, those with a `/`, are relocated).
pub open spec fn relocated_rep(
    m: PieceView,
    old_url: Seq<char>,
    old_is_index: bool,
    new_folder: Seq<char>,
    new_url: Seq<char>,
    exts: Seq<String>,
    wiki: bool,
) -> Seq<char> {
    let gs = m.2;
    let url = group_text(gs[1]);
    if wiki && !url.contains('/') {
        m.1
    } else {
        match relocated(url, old_url, old_is_index, new_folder, new_url, exts) {
            Some(n) => joined_groups(gs.update(1, Some(n))),
            None => m.1,
        }
    }
}

/// `text` with every match of `pattern` rebuilt by [`relocated_rep`], or
/// `text` itself when the pattern does not compile.
pub open spec fn relocate_step(
    pattern: Seq<char>,
    text: Seq<char>,
    names: Seq<Seq<char>>,
    old_url: Seq<char>,
    old_is_index: bool,
    new_folder: Seq<char>,
    new_url: Seq<char>,
    exts: Seq<String>,
    wiki: bool,
) -> Seq<char> {
    match regex_pieces(pattern, text, names) {
        Some(p) => spliced(
            p.0,
            p.1,
            p.0.map_values(
                |pv: PieceView| relocated_rep(pv, old_url, old_is_index, new_folder, new_url, exts, wiki),
            ),
        ),
        None => text,
    }
}

fn relocated_rep_of(piece: &RegexPiece, c: &MoveContext, wiki: bool) -> (r: Vec<char>)
    requires
        piece.groups@.len() > 1,
    ensures
        r@ == relocated_rep(piece_views(seq![*piece])[0], c.old_url@, c.old_is_index, c.new_folder@, c.new_url@, c.exts@, wiki),
{
    let ghost pv = piece_views(seq![*piece])[0];
    let ghost gv = piece.groups@.map_values(|g: Option<String>| opt_view(g));
    assert(pv.2 == gv);
    let url = group_chars(&piece.groups[1]);
    let us = string_of(&url);
    if wiki && !has_slash(us.as_str()) {
        return chars_of(piece.matched.as_str());
    }
    match relocate_link_target(us.as_str(), c.old_url, c.old_is_index, c.new_folder, c.new_url, c.exts) {
        None => chars_of(piece.matched.as_str()),
        Some(n) => {
            let ghost upd = gv.update(1, Some(n@));
            let mut out: Vec<char> = Vec::new();
            let mut j: usize = 0;
            while j < piece.groups.len()
                invariant
                    gv == piece.groups@.map_values(|g: Option<String>| opt_view(g)),
                    upd == gv.update(1, Some(n@)),
                    piece.groups@.len() > 1,
                    j <= piece.groups@.len(),
                    out@ == joined_groups(upd.take(j as int)),
                decreases piece.groups@.len() - j,
            {
                assert(upd.take(j + 1).drop_last() =~= upd.take(j as int));
                if j == 1 {
                    let nc = chars_of(n.as_str());
                    push_all(&mut out, &nc);
                } else {
                    assert(upd[j as int] == opt_view(piece.groups@[j as int]));
                    let g = group_chars(&piece.groups[j]);
                    push_all(&mut out, &g);
                }
                j += 1;
            }
            assert(upd.take(j as int) =~= upd);
            out
        },
    }
}

fn apply_relocate_step(pattern: &str, text: String, names: &[&str], c: &MoveContext, wiki: bool) -> (r: String)
    requires
        names@.len() > 1,
    ensures
        r@ == relocate_step(pattern@, text@, name_views(names@), c.old_url@, c.old_is_index, c.new_folder@, c.new_url@, c.exts@, wiki),
{
    match regex_split(pattern, text.as_str(), names) {
        None => text,
        Some((pieces, tail)) => {
            let ghost pv = piece_views(pieces@);
            let mut reps: Vec<Vec<char>> = Vec::new();
            let mut i: usize = 0;
            while i < pieces.len()
                invariant
                    pv == piece_views(pieces@),
                    names@.len() > 1,
                    forall|k: int| 0 <= k < pieces@.len() ==> (#[trigger] pieces@[k]).groups@.len() == names@.len(),
                    i <= pieces@.len(),
                    reps@.len() == i,
                    forall|k: int| 0 <= k < i ==> #[trigger] reps@[k]@ == relocated_rep(pv[k], c.old_url@, c.old_is_index, c.new_folder@, c.new_url@, c.exts@, wiki),
                decreases pieces@.len() - i,
            {
                assert(pieces@[i as int].groups@.len() == names@.len());
                assert(piece_views(seq![pieces@[i as int]])[0] == pv[i as int]);
                reps.push(relocated_rep_of(&pieces[i], c, wiki));
                i += 1;
            }
            assert(views_of_vecs(reps@) =~= pv.map_values(|p: PieceView| relocated_rep(p, c.old_url@, c.old_is_index, c.new_folder@, c.new_url@, c.exts@, wiki)));
            splice(&pieces, &tail, &reps)
        },
    }
}

/// What [`rewrite_moved_file_outbound_links`] returns: the inline links,
/// then the reference definitions, then the path-style wiki links of
/// `content` relocated to the new folder.
pub open spec fn moved_outbound(
    old_url: Seq<char>,
    old_is_index: bool,
    new_url: Seq<char>,
    new_is_index: bool,
    exts: Seq<String>,
    content: Seq<char>,
) -> Seq<char> {
    let f = page_folder(new_url, new_is_index);
    let inline = relocate_step(
        OUT_INLINE@,
        content,
        name_views(OUT_INLINE_GROUPS@),
        old_url,
        old_is_index,
        f,
        new_url,
        exts,
        false,
    );
    let refs = relocate_step(OUT_REF@, inline, name_views(OUT_REF_GROUPS@), old_url, old_is_index, f, new_url, exts, false);
    relocate_step(OUT_WIKI@, refs, name_views(OUT_WIKI_GROUPS@), old_url, old_is_index, f, new_url, exts, true)
}

/// What a move from `old_url` to `new_url` does to one page living in
/// `folder`. `patterns` are the spellings of the old URL seen from that
/// folder, as [`crate::link_grep::compute_patterns_for_folder`] lists them;
/// a page holding none of them (or no spelling at all, or an automaton that
/// cannot be built) is skipped with `None`, and so is a page the rewrite
/// leaves as it was. Otherwise the rewritten page.
pub fn rewrite_page_for_move(old_url: &str, new_url: &str, folder: &str, patterns: &[String], content: &str) -> (r:
    Option<String>)
    ensures
        match r {
            Some(t) => {
                &&& patterns@.len() > 0
                &&& ac_match(views_of(patterns@), content@) == Some(true)
                &&& t@ == moved_links(old_url@, new_url@, folder@, content@)
                &&& t@ != content@
            },
            None => patterns@.len() == 0 || ac_match(views_of(patterns@), content@) != Some(true)
                || moved_links(old_url@, new_url@, folder@, content@) == content@,
        },
{
    if patterns.len() == 0 {
        return None;
    }
    match gate_matches(patterns, content) {
        Some(true) => {},
        _ => {
            return None;
        },
    }
    let rewritten = rewrite_links_for_move(old_url, new_url, folder, content);
    let a = chars_of(rewritten.as_str());
    let b = chars_of(content);
    if chars_eq(&a, &b) {
        None
    } else {
        Some(rewritten)
    }
}

/// Rewrites the moved file's own relative outbound links so they resolve to
/// the same destinations from its new folder. Absolute, anchor-only,
/// external and bare `[[Name]]` links are left untouched; self-links are
/// re-pointed at `new_url`.
pub fn rewrite_moved_file_outbound_links(
    old_url: &str,
    old_is_index: bool,
    new_url: &str,
    new_is_index: bool,
    exts: &[String],
    content: &str,
) -> (r: String)
    ensures
        r@ == moved_outbound(old_url@, old_is_index, new_url@, new_is_index, exts@, content@),
{
    let new_folder = folder_of(new_url, new_is_index);
    let c = MoveContext { old_url, old_is_index, new_folder: new_folder.as_str(), new_url, exts };
    let out = apply_relocate_step(OUT_INLINE, content.to_owned(), &OUT_INLINE_GROUPS, &c, false);
    let out = apply_relocate_step(OUT_REF, out, &OUT_REF_GROUPS, &c, false);
    let r = apply_relocate_step(OUT_WIKI, out, &OUT_WIKI_GROUPS, &c, true);
    r
}

// ---------------------------------------------------------------------------
// Bare wiki links
// ---------------------------------------------------------------------------

/// Bare wiki link `[[ name #anchor|display]]` around the escaped name,
/// case-insensitively.
pub const BARE_HEAD: &'static str = r"(?i)(?P<pre>\[\[)\s*";
pub const BARE_TAIL: &'static str = r"\s*(?P<anchor>(?:#[^\]|]*)?)(?P<disp>(?:\|[^\]]*)?)(?P<post>\]\])";
pub const BARE_GROUPS: [&'static str; 4] = ["pre", "anchor", "disp", "post"];

/// A matched bare wiki link rebuilt around the new name.
pub open spec fn bare_rep(gs: Seq<Option<Seq<char>>>, new_stem: Seq<char>) -> Seq<char> {
    group_text(gs[0]) + new_stem + group_text(gs[1]) + group_text(gs[2]) + group_text(gs[3])
}

/// What [`rewrite_bare_wikilink`] returns.
pub open spec fn bare_rewritten(content: Seq<char>, old_name: Seq<char>, new_stem: Seq<char>) -> Seq<char> {
    let name = crate::page_errors::trim_ws(old_name);
    if old_name.contains('/') || name.len() == 0 {
        content
    } else {
        match regex_pieces(BARE_HEAD@ + regex_escaped(name) + BARE_TAIL@, content, name_views(BARE_GROUPS@)) {
            Some(p) => spliced(p.0, p.1, p.0.map_values(|pv: PieceView| bare_rep(pv.2, new_stem))),
            None => content,
        }
    }
}

/// Rewrites bare wiki links `[[old_name]]` to `[[new_stem]]`, keeping any
/// `#anchor` and `|display`. Case-insensitive and delimiter-anchored (so
/// `[[guide]]` never rewrites `[[guide-2]]`); path-style names (with a `/`)
/// are left alone.
pub fn rewrite_bare_wikilink(content: &str, old_name: &str, new_stem: &str) -> (r: String)
    ensures
        r@ == bare_rewritten(content@, old_name@, new_stem@),
{
    let on = chars_of(old_name);
    let name = crate::page_errors::trim_chars(&on);
    if has_slash(old_name) || name.len() == 0 {
        return content.to_owned();
    }
    let ns = string_of(&name);
    let esc = regex_escape(ns.as_str());
    let pattern = pattern_of(BARE_HEAD, esc.as_str(), BARE_TAIL);
    match regex_split(pattern.as_str(), content, &BARE_GROUPS) {
        None => content.to_owned(),
        Some((pieces, tail)) => {
            let ghost pv = piece_views(pieces@);
            let stem = chars_of(new_stem);
            let mut reps: Vec<Vec<char>> = Vec::new();
            let mut i: usize = 0;
            while i < pieces.len()
                invariant
                    pv == piece_views(pieces@),
                    stem@ == new_stem@,
                    forall|k: int| 0 <= k < pieces@.len() ==> (#[trigger] pieces@[k]).groups@.len() == 4,
                    i <= pieces@.len(),
                    reps@.len() == i,
                    forall|k: int| 0 <= k < i ==> #[trigger] reps@[k]@ == bare_rep(pv[k].2, new_stem@),
                decreases pieces@.len() - i,
            {
                let gs = &pieces[i].groups;
                assert(gs@.len() == 4);
                assert(pv[i as int].2 == gs@.map_values(|g: Option<String>| opt_view(g)));
                let mut out = group_chars(&gs[0]);
                push_all(&mut out, &stem);
                let a = group_chars(&gs[1]);
                push_all(&mut out, &a);
                let d = group_chars(&gs[2]);
                push_all(&mut out, &d);
                let p = group_chars(&gs[3]);
                push_all(&mut out, &p);
                reps.push(out);
                i += 1;
            }
            assert(views_of_vecs(reps@) =~= pv.map_values(|p: PieceView| bare_rep(p.2, new_stem@)));
            splice(&pieces, &tail, &reps)
        },
    }
}

// ---------------------------------------------------------------------------
// Laws
// ---------------------------------------------------------------------------

/// A relative link target as authored: plain text (no `#`, `?` or `:`),
/// neither rooted nor ending in `/`, without a leading `./` (leading `../`
/// steps are fine).
pub open spec fn plain_relative_target(target: Seq<char>) -> bool {
    &&& target.len() > 0
    &&& crate::link_transform::plain_path_text(target)
    &&& target[0] != '/'
    &&& target.last() != '/'
    &&& !starts_with(target, seq!['.', '/'])
}

/// The relocated form of a plain relative target whose destination, as
/// the relocation sees it, is the folder `dir_url(t)`: when relocated, it
/// leads from the new folder back to that destination.
proof fn lemma_relocated_leads_to(
    target: Seq<char>,
    old_url: Seq<char>,
    old_is_index: bool,
    f: Seq<Seq<char>>,
    t: Seq<Seq<char>>,
    new_url: Seq<char>,
    exts: Seq<String>,
)
    requires
        plain_relative_target(target),
        md_suffix(target, exts) is None,
        forall|i: int| 0 <= i < f.len() ==> crate::link_index::clean_segment(#[trigger] f[i]),
        forall|i: int| 0 <= i < t.len() ==> crate::link_index::clean_segment(#[trigger] t[i]),
        (if normalized_url_path(resolved_url(old_url, target, old_is_index)) == normalized_url_path(old_url) {
            normalized_url_path(new_url)
        } else {
            resolved_url(old_url, target, old_is_index)
        }) == crate::link_index::dir_url(t),
    ensures
        relocated(target, old_url, old_is_index, crate::link_index::dir_url(f), new_url, exts) matches Some(r)
            ==> resolved_url(crate::link_index::dir_url(f), r, true) == crate::link_index::dir_url(t),
{
    crate::link_transform::lemma_plain_relative(target);
    let core = relative_path(crate::link_index::dir_url(f), crate::link_index::dir_url(t));
    crate::link_grep::law_relative_path_resolves_back(f, t);
    assert(!ends_with(target, seq!['/'])) by {
        if ends_with(target, seq!['/']) {
            assert(target.skip(target.len() - 1)[0] == target.last());
        }
    }
    assert(Seq::<char>::empty() + core + Seq::<char>::empty() + Seq::<char>::empty() =~= core);
}

/// Relocating a moved page's link keeps its destination: for a plain
/// relative target (no markdown extension) that, from the page's old URL,
/// names the folder `dir_url(t)` (not the moved page itself), the
/// relocated target, resolved from the new folder `dir_url(f)`, names the
/// same folder.
pub proof fn law_relocated_links_keep_their_destination(
    target: Seq<char>,
    old_url: Seq<char>,
    old_is_index: bool,
    f: Seq<Seq<char>>,
    t: Seq<Seq<char>>,
    new_url: Seq<char>,
    exts: Seq<String>,
)
    requires
        plain_relative_target(target),
        md_suffix(target, exts) is None,
        forall|i: int| 0 <= i < f.len() ==> crate::link_index::clean_segment(#[trigger] f[i]),
        forall|i: int| 0 <= i < t.len() ==> crate::link_index::clean_segment(#[trigger] t[i]),
        resolved_url(old_url, target, old_is_index) == crate::link_index::dir_url(t),
        normalized_url_path(crate::link_index::dir_url(t)) != normalized_url_path(old_url),
    ensures
        relocated(target, old_url, old_is_index, crate::link_index::dir_url(f), new_url, exts) matches Some(r)
            ==> resolved_url(crate::link_index::dir_url(f), r, true) == crate::link_index::dir_url(t),
{
    lemma_relocated_leads_to(target, old_url, old_is_index, f, t, new_url, exts);
}

/// A moved page's link to itself follows it: for a plain relative target
/// (no markdown extension) that, from the page's old URL, names the page
/// itself, the relocated target, resolved from the new folder `dir_url(f)`,
/// names the page's new URL (the folder URL `dir_url(t)`).
pub proof fn law_self_links_follow_the_move(
    target: Seq<char>,
    old_url: Seq<char>,
    old_is_index: bool,
    f: Seq<Seq<char>>,
    t: Seq<Seq<char>>,
    new_url: Seq<char>,
    exts: Seq<String>,
)
    requires
        plain_relative_target(target),
        md_suffix(target, exts) is None,
        forall|i: int| 0 <= i < f.len() ==> crate::link_index::clean_segment(#[trigger] f[i]),
        forall|i: int| 0 <= i < t.len() ==> crate::link_index::clean_segment(#[trigger] t[i]),
        normalized_url_path(resolved_url(old_url, target, old_is_index)) == normalized_url_path(old_url),
        normalized_url_path(new_url) == crate::link_index::dir_url(t),
    ensures
        relocated(target, old_url, old_is_index, crate::link_index::dir_url(f), new_url, exts) matches Some(r)
            ==> resolved_url(crate::link_index::dir_url(f), r, true) == crate::link_index::dir_url(t),
{
    lemma_relocated_leads_to(target, old_url, old_is_index, f, t, new_url, exts);
}

} // verus!
