//! Backlink discovery: the link patterns that can reference a target page
//! from a given folder, and the code-region stripping that keeps links in
//! code samples from counting.

use vstd::prelude::*;
use crate::link_index::{vec_views, InboundLink, InboundLinkView, opt_view};
use crate::link_index::{apply_clamped, dir_url, link_base_dir, resolved_url, seg_scan, segments};
use crate::link_index::lemma_seg_scan_plain;
use crate::page_errors::{dedup, trim_ws};
use crate::media::ascii_lowercase;
use crate::regex_text::{
    alternation, alternation_of, group_chars, group_text, name_views, pattern_of, piece_views, regex_escape, regex_escaped,
    regex_pieces, regex_split, PieceView, RegexPiece,
};
use crate::link_index::{inbound_order, inbound_views, lemma_inbound_le_total_ordering, sort_inbound_links};
use crate::text::{lowercase, to_lowercase};
use crate::text::views_of;
pub use crate::link_cache::InboundLinkCache;
use crate::frontmatter::{title_key, MetaValue, MetaView, Metadata};
use crate::text::{
    chars_of, copy_range, lemma_rfind_bounds, lemma_trim_end_prefix, lemma_trim_start_suffix,
    push_all, rfind_char, rfind_char_exec, starts_with, string_of, trim_end, trim_end_len,
    trim_start, trim_start_pos,
};

verus! {

// ---------------------------------------------------------------------------
// Relative paths between folders
// ---------------------------------------------------------------------------

/// Left-to-right scan splitting at every `/` (empty parts kept): the
/// completed parts and the part being read.
pub open spec fn split_scan(s: Seq<char>) -> (Seq<Seq<char>>, Seq<char>)
    decreases s.len(),
{
    if s.len() == 0 {
        (Seq::empty(), Seq::empty())
    } else {
        let prev = split_scan(s.drop_last());
        if s.last() == '/' {
            (prev.0.push(prev.1), Seq::empty())
        } else {
            (prev.0, prev.1.push(s.last()))
        }
    }
}

/// `s.split('/')`: every part, empty ones included.
pub open spec fn split_slash(s: Seq<char>) -> Seq<Seq<char>> {
    split_scan(s).0.push(split_scan(s).1)
}

/// The parts joined with `/`.
pub open spec fn join_slash(parts: Seq<Seq<char>>) -> Seq<char>
    decreases parts.len(),
{
    if parts.len() == 0 {
        Seq::empty()
    } else if parts.len() == 1 {
        parts[0]
    } else {
        join_slash(parts.drop_last()) + seq!['/'] + parts.last()
    }
}

/// A URL path without its leading and trailing slashes, split into parts
/// (none for an empty path).
pub open spec fn path_parts(p: Seq<char>) -> Seq<Seq<char>> {
    let t = trim_end(trim_start(p, '/'), '/');
    if t.len() == 0 {
        Seq::empty()
    } else {
        split_slash(t)
    }
}

/// The length of the longest common prefix of `a` and `b`.
pub open spec fn common_prefix_len(a: Seq<Seq<char>>, b: Seq<Seq<char>>) -> nat
    decreases a.len(),
{
    if a.len() == 0 || b.len() == 0 || a[0] != b[0] {
        0
    } else {
        1 + common_prefix_len(a.drop_first(), b.drop_first())
    }
}

/// What [`compute_relative_path`] returns: `..` for every source part past
/// the common prefix, then the rest of the target; `.` when that is empty.
pub open spec fn relative_path(source_folder: Seq<char>, target_path: Seq<char>) -> Seq<char> {
    let s = path_parts(source_folder);
    let t = path_parts(target_path);
    let common = common_prefix_len(s, t);
    let parts = Seq::new((s.len() - common) as nat, |i: int| seq!['.', '.']) + t.skip(common as int);
    if parts.len() == 0 {
        seq!['.']
    } else {
        join_slash(parts)
    }
}

proof fn lemma_common_prefix(a: Seq<Seq<char>>, b: Seq<Seq<char>>)
    ensures
        common_prefix_len(a, b) <= a.len(),
        common_prefix_len(a, b) <= b.len(),
        forall|i: int| 0 <= i < common_prefix_len(a, b) ==> a[i] == b[i],
        common_prefix_len(a, b) < a.len() && common_prefix_len(a, b) < b.len() ==> a[common_prefix_len(a, b) as int] != b[common_prefix_len(a, b) as int],
    decreases a.len(),
{
    if a.len() == 0 || b.len() == 0 || a[0] != b[0] {
    } else {
        lemma_common_prefix(a.drop_first(), b.drop_first());
        let n = common_prefix_len(a, b);
        assert forall|i: int| 0 <= i < n implies a[i] == b[i] by {
            if i > 0 {
                assert(a.drop_first()[i - 1] == a[i]);
                assert(b.drop_first()[i - 1] == b[i]);
            }
        }
        if n < a.len() && n < b.len() {
            assert(a.drop_first()[n - 1] == a[n as int]);
            assert(b.drop_first()[n - 1] == b[n as int]);
        }
    }
}

/// Every part of `s` split at `/`, empty ones included.
fn split_slash_exec(s: &[char]) -> (r: Vec<Vec<char>>)
    ensures
        vec_views(r@) == split_slash(s@),
{
    let mut done: Vec<Vec<char>> = Vec::new();
    let mut cur: Vec<char> = Vec::new();
    let mut i: usize = 0;
    assert(vec_views(done@) =~= Seq::<Seq<char>>::empty());
    while i < s.len()
        invariant
            i <= s@.len(),
            (vec_views(done@), cur@) == split_scan(s@.take(i as int)),
        decreases s@.len() - i,
    {
        let c = s[i];
        assert(s@.take(i + 1).drop_last() =~= s@.take(i as int));
        if c == '/' {
            let ghost d = done@;
            done.push(cur);
            assert(vec_views(done@) =~= vec_views(d).push(cur@));
            cur = Vec::new();
        } else {
            cur.push(c);
        }
        i += 1;
    }
    assert(s@.take(s@.len() as int) =~= s@);
    let ghost d = done@;
    done.push(cur);
    assert(vec_views(done@) =~= vec_views(d).push(cur@));
    done
}

/// The parts of a URL path between its outer slashes.
fn path_parts_exec(p: &[char]) -> (r: Vec<Vec<char>>)
    ensures
        vec_views(r@) == path_parts(p@),
{
    let a = trim_start_pos(p, '/');
    let tail = copy_range(p, a, p.len());
    assert(tail@ =~= p@.skip(a as int));
    let b = trim_end_len(&tail, '/');
    let t = copy_range(&tail, 0, b);
    assert(t@ =~= tail@.take(b as int));
    if t.len() == 0 {
        let r: Vec<Vec<char>> = Vec::new();
        assert(vec_views(r@) =~= Seq::<Seq<char>>::empty());
        r
    } else {
        split_slash_exec(&t)
    }
}

/// The parts joined with `/`.
fn join_slash_exec(parts: &Vec<Vec<char>>) -> (r: Vec<char>)
    ensures
        r@ == join_slash(vec_views(parts@)),
{
    let ghost vs = vec_views(parts@);
    let mut r: Vec<char> = Vec::new();
    let mut i: usize = 0;
    while i < parts.len()
        invariant
            vs == vec_views(parts@),
            i <= parts@.len(),
            r@ == join_slash(vs.take(i as int)),
        decreases parts@.len() - i,
    {
        assert(vs.take(i + 1).drop_last() =~= vs.take(i as int));
        assert(vs.take(i + 1).last() == parts@[i as int]@);
        if i > 0 {
            r.push('/');
        } else {
            assert(vs.take(1)[0] == parts@[0]@);
        }
        push_all(&mut r, parts[i].as_slice());
        i += 1;
    }
    assert(vs.take(parts@.len() as int) =~= vs);
    r
}

/// Computes the relative path from a source folder to a target URL path:
/// `/a/` → `/a/b/1` is `b/1`, `/a/b/` → `/a/1` is `../1`, and
/// `/a/b/c/` → `/d/e/f/1` is `../../../d/e/f/1`.
pub fn compute_relative_path(source_folder: &str, target_path: &str) -> (r: String)
    ensures
        r@ == relative_path(source_folder@, target_path@),
{
    let sf = chars_of(source_folder);
    let tp = chars_of(target_path);
    string_of(&relative_path_chars(&sf, &tp))
}

fn relative_path_chars(sf: &[char], tp: &[char]) -> (r: Vec<char>)
    ensures
        r@ == relative_path(sf@, tp@),
{
    let s = path_parts_exec(sf);
    let t = path_parts_exec(tp);
    let ghost sv = vec_views(s@);
    let ghost tv = vec_views(t@);
    let mut common: usize = 0;
    assert(sv.skip(0) =~= sv);
    assert(tv.skip(0) =~= tv);
    while common < s.len() && common < t.len() && crate::text::chars_eq(
        s[common].as_slice(),
        t[common].as_slice(),
    )
        invariant
            sv == vec_views(s@),
            tv == vec_views(t@),
            common <= s@.len(),
            common <= t@.len(),
            common_prefix_len(sv, tv) == common + common_prefix_len(
                sv.skip(common as int),
                tv.skip(common as int),
            ),
        decreases s@.len() - common,
    {
        assert(sv.skip(common as int)[0] == s@[common as int]@);
        assert(tv.skip(common as int)[0] == t@[common as int]@);
        assert(sv.skip(common as int).drop_first() =~= sv.skip(common + 1));
        assert(tv.skip(common as int).drop_first() =~= tv.skip(common + 1));
        common += 1;
    }
    proof {
        if common < s@.len() && common < t@.len() {
            assert(sv.skip(common as int)[0] == s@[common as int]@);
            assert(tv.skip(common as int)[0] == t@[common as int]@);
        }
        assert(common_prefix_len(sv.skip(common as int), tv.skip(common as int)) == 0);
    }
    let mut parts: Vec<Vec<char>> = Vec::new();
    let ups = s.len() - common;
    let mut k: usize = 0;
    while k < ups
        invariant
            k <= ups,
            vec_views(parts@) == Seq::new(k as nat, |i: int| seq!['.', '.']),
        decreases ups - k,
    {
        let ghost before = parts@;
        let dd: Vec<char> = vec!['.', '.'];
        assert(dd@ =~= seq!['.', '.']);
        parts.push(dd);
        assert(vec_views(parts@) =~= vec_views(before).push(dd@));
        assert(vec_views(parts@) =~= Seq::new((k + 1) as nat, |i: int| seq!['.', '.']));
        k += 1;
    }
    let mut j = common;
    while j < t.len()
        invariant
            tv == vec_views(t@),
            common <= j <= t@.len(),
            vec_views(parts@) == Seq::new(ups as nat, |i: int| seq!['.', '.']) + tv.subrange(
                common as int,
                j as int,
            ),
        decreases t@.len() - j,
    {
        let piece = copy_range(t[j].as_slice(), 0, t[j].len());
        assert(piece@ =~= t@[j as int]@);
        let ghost before = parts@;
        parts.push(piece);
        assert(vec_views(parts@) =~= vec_views(before).push(piece@));
        assert(tv.subrange(common as int, j + 1) =~= tv.subrange(common as int, j as int).push(
            tv[j as int],
        ));
        j += 1;
    }
    assert(tv.subrange(common as int, t@.len() as int) =~= tv.skip(common as int));
    assert(vec_views(parts@) =~= Seq::new((sv.len() - common) as nat, |i: int| seq!['.', '.']) + tv.skip(common as int));
    if parts.len() == 0 {
        vec!['.']
    } else {
        join_slash_exec(&parts)
    }
}

// ---------------------------------------------------------------------------
// Link patterns
// ---------------------------------------------------------------------------

/// The spellings of a link to `base`: without a trailing slash, with one,
/// with `.md`, and with `#` (the start of an anchor).
pub open spec fn pattern_variants(base: Seq<char>) -> Set<Seq<char>> {
    let n = trim_end(base, '/');
    set![n, n.push('/'), n + seq!['.', 'm', 'd'], n.push('#')]
}

/// The string views of each element.
pub open spec fn string_views(v: Seq<String>) -> Seq<Seq<char>> {
    v.map_values(|s: String| s@)
}

/// What [`compute_patterns_for_folder`] returns, as a set: the absolute
/// spellings of the target, and — unless the target is the folder itself —
/// the folder-relative ones, plus `./`-prefixed ones when the relative
/// path does not already start with `./` or `../`.
pub open spec fn folder_patterns(source_folder: Seq<char>, target_url_path: Seq<char>) -> Set<
    Seq<char>,
> {
    let t = trim_end(trim_start(target_url_path, '/'), '/');
    if t.len() == 0 {
        Set::empty()
    } else {
        let abs = pattern_variants(seq!['/'] + t);
        let rel = relative_path(source_folder, target_url_path);
        if rel == seq!['.'] {
            abs
        } else if !starts_with(rel, seq!['.', '.', '/']) && !starts_with(rel, seq!['.', '/']) {
            abs + pattern_variants(rel) + pattern_variants(seq!['.', '/'] + rel)
        } else {
            abs + pattern_variants(rel)
        }
    }
}

/// Whether some string in `patterns` has exactly the characters `s`.
pub(crate) fn contains_chars(patterns: &Vec<String>, s: &[char]) -> (r: bool)
    ensures
        r == string_views(patterns@).contains(s@),
{
    let ghost sv = string_views(patterns@);
    let mut i: usize = 0;
    while i < patterns.len()
        invariant
            sv == string_views(patterns@),
            i <= patterns@.len(),
            forall|j: int| 0 <= j < i ==> sv[j] != s@,
        decreases patterns@.len() - i,
    {
        let p = chars_of(patterns[i].as_str());
        if crate::text::chars_eq(&p, s) {
            assert(sv[i as int] == s@);
            return true;
        }
        i += 1;
    }
    false
}

/// Adds `s` to `patterns` unless an equal string is already there.
fn insert_unique(patterns: &mut Vec<String>, s: Vec<char>)
    requires
        string_views(old(patterns)@).no_duplicates(),
    ensures
        string_views(final(patterns)@).no_duplicates(),
        string_views(final(patterns)@).to_set() == string_views(old(patterns)@).to_set().insert(s@),
{
    let ghost sv = string_views(patterns@);
    if contains_chars(patterns, &s) {
        assert(sv.to_set().insert(s@) =~= sv.to_set());
        return;
    }
    let ghost before = patterns@;
    patterns.push(string_of(&s));
    assert(string_views(patterns@) =~= sv.push(s@));
    assert(!sv.contains(s@));
    assert(sv.push(s@).no_duplicates()) by {
        let q = sv.push(s@);
        assert forall|a: int, b: int| 0 <= a < q.len() && 0 <= b < q.len() && a != b implies q[a] != q[b] by {
            if a < sv.len() && b < sv.len() {
            } else if a == sv.len() {
                assert(q[b] == sv[b]);
            } else {
                assert(q[a] == sv[a]);
            }
        }
    }
    assert(sv.push(s@).to_set() =~= sv.to_set().insert(s@)) by {
        assert forall|x: Seq<char>| sv.push(s@).to_set().contains(x) <==> sv.to_set().insert(s@).contains(x) by {
            if sv.push(s@).contains(x) {
                let k = choose|k: int| 0 <= k < sv.push(s@).len() && sv.push(s@)[k] == x;
                if k < sv.len() {
                    assert(sv[k] == x);
                }
            }
            if sv.contains(x) {
                let k = choose|k: int| 0 <= k < sv.len() && sv[k] == x;
                assert(sv.push(s@)[k] == x);
            }
            assert(sv.push(s@)[sv.len() as int] == s@);
        }
    }
}

/// Adds the pattern variants of `base` to `patterns`: `a/b/c`, `a/b/c/`,
/// `a/b/c.md` and `a/b/c#`.
pub fn add_pattern_variants(patterns: &mut Vec<String>, base: &str)
    requires
        string_views(old(patterns)@).no_duplicates(),
    ensures
        string_views(final(patterns)@).no_duplicates(),
        string_views(final(patterns)@).to_set() == string_views(old(patterns)@).to_set()
            + pattern_variants(base@),
{
    let b = chars_of(base);
    add_variants_chars(patterns, &b);
}

fn add_variants_chars(patterns: &mut Vec<String>, b: &[char])
    requires
        string_views(old(patterns)@).no_duplicates(),
    ensures
        string_views(final(patterns)@).no_duplicates(),
        string_views(final(patterns)@).to_set() == string_views(old(patterns)@).to_set()
            + pattern_variants(b@),
{
    let ghost start = string_views(patterns@).to_set();
    let n = trim_end_len(b, '/');
    let norm = copy_range(b, 0, n);
    let mut with_slash = copy_range(b, 0, n);
    with_slash.push('/');
    let mut with_md = copy_range(b, 0, n);
    with_md.push('.');
    with_md.push('m');
    with_md.push('d');
    let mut with_hash = copy_range(b, 0, n);
    with_hash.push('#');
    let ghost nv = norm@;
    insert_unique(patterns, norm);
    insert_unique(patterns, with_slash);
    insert_unique(patterns, with_md);
    insert_unique(patterns, with_hash);
    assert(nv + seq!['.', 'm', 'd'] =~= nv.push('.').push('m').push('d'));
    assert(string_views(patterns@).to_set() =~= start + pattern_variants(b@));
}

/// All link patterns that could reference `target_url_path` from a file in
/// `source_folder`, without duplicates (in no particular order).
pub fn compute_patterns_for_folder(source_folder: &str, target_url_path: &str) -> (r: Vec<String>)
    ensures
        string_views(r@).no_duplicates(),
        string_views(r@).to_set() == folder_patterns(source_folder@, target_url_path@),
{
    let mut patterns: Vec<String> = Vec::new();
    assert(string_views(patterns@) =~= Seq::<Seq<char>>::empty());
    assert(string_views(patterns@).to_set() =~= Set::<Seq<char>>::empty());
    let tp = chars_of(target_url_path);
    let a = trim_start_pos(&tp, '/');
    let tail = copy_range(&tp, a, tp.len());
    assert(tail@ =~= tp@.skip(a as int));
    let b = trim_end_len(&tail, '/');
    let t = copy_range(&tail, 0, b);
    assert(t@ =~= tail@.take(b as int));
    if t.len() == 0 {
        assert(string_views(patterns@).to_set() =~= Set::<Seq<char>>::empty());
        return patterns;
    }
    let mut abs: Vec<char> = vec!['/'];
    push_all(&mut abs, &t);
    assert(abs@ =~= seq!['/'] + t@);
    assert(t@ == trim_end(trim_start(target_url_path@, '/'), '/'));
    add_variants_chars(&mut patterns, &abs);
    assert(string_views(patterns@).to_set() =~= pattern_variants(seq!['/'] + t@));
    let sf = chars_of(source_folder);
    let rel = relative_path_chars(&sf, &tp);
    assert(rel@ == relative_path(source_folder@, target_url_path@));
    if rel.len() == 1 && rel[0] == '.' {
        assert(rel@ =~= seq!['.']);
        assert(string_views(patterns@).to_set() =~= folder_patterns(source_folder@, target_url_path@));
        return patterns;
    }
    assert(rel@ != seq!['.']) by {
        if rel@ == seq!['.'] {
            assert(rel@.len() == 1 && rel@[0] == '.');
        }
    }
    add_variants_chars(&mut patterns, &rel);
    assert(string_views(patterns@).to_set() =~= pattern_variants(seq!['/'] + t@) + pattern_variants(rel@));
    let dotdot = crate::text::has_prefix(&rel, &['.', '.', '/']);
    let dot = crate::text::has_prefix(&rel, &['.', '/']);
    if !dotdot && !dot {
        let mut dotted: Vec<char> = vec!['.', '/'];
        push_all(&mut dotted, &rel);
        assert(dotted@ =~= seq!['.', '/'] + rel@);
        add_variants_chars(&mut patterns, &dotted);
    }
    assert(string_views(patterns@).to_set() =~= folder_patterns(source_folder@, target_url_path@));
    patterns
}

/// The link patterns for `target_url_path` from each folder in `folders`,
/// paired with that folder.
pub fn build_folder_patterns(target_url_path: &str, folders: &Vec<String>) -> (r: Vec<(String, Vec<String>)>)
    ensures
        r@.len() == folders@.len(),
        forall|i: int|
            0 <= i < r@.len() ==> (#[trigger] r@[i]).0@ == folders@[i]@ && string_views(r@[i].1@).to_set()
                == folder_patterns(folders@[i]@, target_url_path@),
{
    let mut r: Vec<(String, Vec<String>)> = Vec::new();
    let mut i: usize = 0;
    while i < folders.len()
        invariant
            i <= folders@.len(),
            r@.len() == i,
            forall|k: int|
                0 <= k < i ==> (#[trigger] r@[k]).0@ == folders@[k]@ && string_views(r@[k].1@).to_set()
                    == folder_patterns(folders@[k]@, target_url_path@),
        decreases folders@.len() - i,
    {
        let f = &folders[i];
        let patterns = compute_patterns_for_folder(f.as_str(), target_url_path);
        let fc = chars_of(f.as_str());
        r.push((string_of(&fc), patterns));
        i += 1;
    }
    r
}

/// What [`get_folder_url_path`] returns: `/a/b/c/` → `/a/b/`, `/a/` → `/`.
pub open spec fn folder_url_path(file_url_path: Seq<char>) -> Seq<char> {
    let t = trim_end(file_url_path, '/');
    match rfind_char(t, '/') {
        Some(k) => t.take(k).push('/'),
        None => seq!['/'],
    }
}

/// Gets the folder URL path from a file URL path.
pub fn get_folder_url_path(file_url_path: &str) -> (r: String)
    ensures
        r@ == folder_url_path(file_url_path@),
{
    let v = chars_of(file_url_path);
    let n = trim_end_len(&v, '/');
    let t = copy_range(&v, 0, n);
    assert(t@ =~= v@.take(n as int));
    proof {
        lemma_rfind_bounds(t@, '/');
    }
    match rfind_char_exec(&t, '/') {
        Some(k) => {
            let mut r = copy_range(&t, 0, k);
            r.push('/');
            string_of(&r)
        },
        None => string_of(&['/']),
    }
}

} // verus!

verus! {

// ---------------------------------------------------------------------------
// Code regions
// ---------------------------------------------------------------------------

/// Left-to-right scan of `s` into lines (`str::lines`): the completed lines
/// (a `\r` before `\n` dropped) and the line being read.
pub open spec fn line_scan(s: Seq<char>) -> (Seq<Seq<char>>, Seq<char>)
    decreases s.len(),
{
    if s.len() == 0 {
        (Seq::empty(), Seq::empty())
    } else {
        let prev = line_scan(s.drop_last());
        if s.last() == '\n' {
            (prev.0.push(strip_cr(prev.1)), Seq::empty())
        } else {
            (prev.0, prev.1.push(s.last()))
        }
    }
}

/// `l` without a final `\r`.
pub open spec fn strip_cr(l: Seq<char>) -> Seq<char> {
    if l.len() > 0 && l.last() == '\r' {
        l.drop_last()
    } else {
        l
    }
}

/// The lines of `s`, as `str::lines` yields them.
pub open spec fn lines(s: Seq<char>) -> Seq<Seq<char>> {
    let p = line_scan(s);
    if p.1.len() > 0 {
        p.0.push(p.1)
    } else {
        p.0
    }
}

/// How many times `c` repeats at the start of `s`.
pub open spec fn leading_run(s: Seq<char>, c: char) -> nat {
    (s.len() - trim_start(s, c).len()) as nat
}

/// The fence character and run length if `line` opens or closes a code
/// fence: three or more backticks or tildes.
pub open spec fn fence_of(line: Seq<char>) -> Option<(char, nat)> {
    if line.len() == 0 || (line[0] != '`' && line[0] != '~') {
        None
    } else if leading_run(line, line[0]) >= 3 {
        Some((line[0], leading_run(line, line[0])))
    } else {
        None
    }
}

/// The fence marker of a line indented by at most three spaces.
pub open spec fn line_marker(line: Seq<char>) -> Option<(char, nat)> {
    let ind = leading_run(line, ' ');
    if ind <= 3 {
        fence_of(line.skip(ind as int))
    } else {
        None
    }
}

/// Whether `line` closes the fence `(fc, fl)`: the same character, at least
/// as long, with nothing but whitespace after it.
pub open spec fn closes_fence(line: Seq<char>, fc: char, fl: nat) -> bool {
    match line_marker(line) {
        Some((c, n)) => c == fc && n >= fl && crate::link_transform::all_whitespace(
            line.skip((leading_run(line, ' ') + n) as int),
        ),
        None => false,
    }
}

/// The length of the run of backticks starting at `i`.
pub open spec fn tick_run(s: Seq<char>, i: int) -> nat {
    leading_run(s.skip(i), '`')
}

/// The start of the next run of exactly `run` backticks at or after `i`.
pub open spec fn find_tick_run(s: Seq<char>, i: int, run: nat) -> Option<int>
    decreases s.len() - i,
{
    if i < 0 || i >= s.len() {
        None
    } else if s[i] == '`' {
        proof {
            lemma_tick_run_positive(s, i);
        }
        if tick_run(s, i) == run {
            Some(i)
        } else {
            find_tick_run(s, i + tick_run(s, i), run)
        }
    } else {
        find_tick_run(s, i + 1, run)
    }
}

/// `s` from `i` on with each inline code span replaced by one space; an
/// unclosed run of backticks is kept as literal text.
pub open spec fn strip_inline_from(s: Seq<char>, i: int) -> Seq<char>
    decreases s.len() - i,
{
    if i < 0 || i >= s.len() {
        Seq::empty()
    } else if s[i] == '`' {
        proof {
            lemma_tick_run_positive(s, i);
            lemma_find_tick_run_after(s, i + tick_run(s, i), tick_run(s, i));
        }
        let r = tick_run(s, i);
        match find_tick_run(s, i + r, r) {
            Some(close) => seq![' '] + strip_inline_from(s, close + r),
            None => s.subrange(i, i + r) + strip_inline_from(s, i + r),
        }
    } else {
        seq![s[i]] + strip_inline_from(s, i + 1)
    }
}

/// One line of [`strip_code_regions`]: the text so far and the open fence,
/// if any, updated with `line`.
pub open spec fn strip_step(
    state: (Seq<char>, Option<(char, nat)>),
    line: Seq<char>,
) -> (Seq<char>, Option<(char, nat)>) {
    match state.1 {
        Some((fc, fl)) => (state.0.push('\n'), if closes_fence(line, fc, fl) {
            None
        } else {
            state.1
        }),
        None => match line_marker(line) {
            Some(m) => (state.0.push('\n'), Some(m)),
            None => (state.0 + strip_inline_from(line, 0) + seq!['\n'], None),
        },
    }
}

/// [`strip_step`] over every line, from no text and no open fence.
pub open spec fn strip_lines(ls: Seq<Seq<char>>) -> (Seq<char>, Option<(char, nat)>)
    decreases ls.len(),
{
    if ls.len() == 0 {
        (Seq::empty(), None)
    } else {
        strip_step(strip_lines(ls.drop_last()), ls.last())
    }
}

/// The text with fenced code blocks and inline code spans blanked out, one
/// output line per input line.
pub open spec fn stripped_code(content: Seq<char>) -> Seq<char> {
    strip_lines(lines(content)).0
}

/// The run of leading `c`s: its length, its characters, and what
/// trimming it leaves.
pub proof fn lemma_leading_run(s: Seq<char>, c: char)
    ensures
        leading_run(s, c) <= s.len(),
        forall|j: int| 0 <= j < leading_run(s, c) ==> s[j] == c,
        leading_run(s, c) < s.len() ==> s[leading_run(s, c) as int] != c,
        trim_start(s, c) == s.skip(leading_run(s, c) as int),
{
    lemma_trim_start_suffix(s, c);
    let t = trim_start(s, c);
    if leading_run(s, c) < s.len() {
        assert(t[0] == s[leading_run(s, c) as int]);
    }
}

/// A backtick at `i` starts a run of at least one.
pub proof fn lemma_tick_run_positive(s: Seq<char>, i: int)
    requires
        0 <= i < s.len(),
        s[i] == '`',
    ensures
        1 <= tick_run(s, i) <= s.len() - i,
{
    lemma_leading_run(s.skip(i), '`');
    if tick_run(s, i) == 0 {
        assert(s.skip(i)[0] == s[i]);
    }
}

/// Where the search for a closing backtick run of length `run` ends up.
pub proof fn lemma_find_tick_run_after(s: Seq<char>, i: int, run: nat)
    ensures
        find_tick_run(s, i, run) matches Some(k) ==> i <= k && k + run <= s.len() && tick_run(s, k)
            == run,
    decreases s.len() - i,
{
    if i < 0 || i >= s.len() {
    } else if s[i] == '`' {
        lemma_tick_run_positive(s, i);
        if tick_run(s, i) != run {
            lemma_find_tick_run_after(s, i + tick_run(s, i), run);
        }
    } else {
        lemma_find_tick_run_after(s, i + 1, run);
    }
}

/// The length of the run of `c` at the start of `s[from..]`.
fn run_length(s: &[char], from: usize, c: char) -> (n: usize)
    requires
        from <= s@.len(),
    ensures
        n == leading_run(s@.skip(from as int), c),
        from + n <= s@.len(),
{
    let mut i = from;
    proof {
        lemma_leading_run(s@.skip(from as int), c);
    }
    while i < s.len() && s[i] == c
        invariant
            from <= i <= s@.len(),
            forall|j: int| from <= j < i ==> s@[j] == c,
        decreases s@.len() - i,
    {
        i += 1;
    }
    let ghost t = s@.skip(from as int);
    proof {
        lemma_leading_run(t, c);
        let lr = leading_run(t, c);
        assert forall|j: int| 0 <= j < i - from implies t[j] == c by {
            assert(t[j] == s@[from + j]);
        }
        if lr < i - from {
            assert(t[lr as int] == c);
        }
        if lr > i - from {
            assert(t[i - from] == c);
            assert(i < s@.len());
            assert(s@[i as int] == t[i - from]);
        }
    }
    i - from
}

/// The fence character and run length if `line` opens or closes a code
/// fence.
fn fence_marker(line: &[char]) -> (r: Option<(char, usize)>)
    ensures
        match r {
            Some((c, n)) => fence_of(line@) == Some((c, n as nat)),
            None => fence_of(line@) is None,
        },
{
    if line.len() == 0 {
        return None;
    }
    let first = line[0];
    if first != '`' && first != '~' {
        return None;
    }
    let run = run_length(line, 0, first);
    assert(line@.skip(0) =~= line@);
    if run >= 3 {
        Some((first, run))
    } else {
        None
    }
}

/// Byte offset of the next run of exactly `run` backticks at or after
/// `from`.
fn find_backtick_run(s: &[char], from: usize, run: usize) -> (r: Option<usize>)
    requires
        from <= s@.len(),
    ensures
        match r {
            Some(k) => find_tick_run(s@, from as int, run as nat) == Some(k as int),
            None => find_tick_run(s@, from as int, run as nat) is None,
        },
{
    let mut i = from;
    while i < s.len()
        invariant
            from <= i <= s@.len(),
            find_tick_run(s@, from as int, run as nat) == find_tick_run(s@, i as int, run as nat),
        decreases s@.len() - i,
    {
        if s[i] == '`' {
            let n = run_length(s, i, '`');
            proof {
                lemma_tick_run_positive(s@, i as int);
            }
            if n == run {
                return Some(i);
            }
            i += n;
        } else {
            i += 1;
        }
    }
    None
}

/// Removes inline code spans from a single line: a run of N backticks opens
/// a span that ends at the next run of exactly N backticks; the span is
/// replaced by one space. An unclosed run is literal text and is kept.
fn strip_inline_code(line: &[char]) -> (r: Vec<char>)
    ensures
        r@ == strip_inline_from(line@, 0),
{
    let mut out: Vec<char> = Vec::new();
    let mut i: usize = 0;
    while i < line.len()
        invariant
            i <= line@.len(),
            out@ + strip_inline_from(line@, i as int) == strip_inline_from(line@, 0),
        decreases line@.len() - i,
    {
        if line[i] == '`' {
            let run = run_length(line, i, '`');
            proof {
                lemma_tick_run_positive(line@, i as int);
                lemma_find_tick_run_after(line@, i + run, run as nat);
            }
            match find_backtick_run(line, i + run, run) {
                Some(close) => {
                    let ghost before = out@;
                    out.push(' ');
                    assert(before + strip_inline_from(line@, i as int) =~= out@ + strip_inline_from(
                        line@,
                        close + run,
                    ));
                    i = close + run;
                },
                None => {
                    let ghost before = out@;
                    let piece = copy_range(line, i, i + run);
                    push_all(&mut out, &piece);
                    assert(before + strip_inline_from(line@, i as int) =~= out@ + strip_inline_from(
                        line@,
                        i + run,
                    ));
                    i = i + run;
                },
            }
        } else {
            let ghost before = out@;
            out.push(line[i]);
            assert(before + strip_inline_from(line@, i as int) =~= out@ + strip_inline_from(
                line@,
                i + 1,
            ));
            i += 1;
        }
    }
    assert(out@ =~= strip_inline_from(line@, 0));
    out
}

/// Whether every character of `s[from..]` is whitespace.
fn rest_is_blank(s: &[char], from: usize) -> (r: bool)
    requires
        from <= s@.len(),
    ensures
        r == crate::link_transform::all_whitespace(s@.skip(from as int)),
{
    let t = copy_range(s, from, s.len());
    assert(t@ =~= s@.skip(from as int));
    crate::link_transform::all_whitespace_exec(&t)
}

/// The marker of a line indented by at most three spaces.
fn line_marker_exec(line: &[char]) -> (r: (usize, Option<(char, usize)>))
    ensures
        r.0 == leading_run(line@, ' '),
        match r.1 {
            Some((c, n)) => line_marker(line@) == Some((c, n as nat)),
            None => line_marker(line@) is None,
        },
{
    let indent = run_length(line, 0, ' ');
    assert(line@.skip(0) =~= line@);
    if indent <= 3 {
        let rest = copy_range(line, indent, line.len());
        assert(rest@ =~= line@.skip(indent as int));
        (indent, fence_marker(&rest))
    } else {
        (indent, None)
    }
}

/// One step of the line state machine.
fn strip_line(out: &mut Vec<char>, fence: Option<(char, usize)>, line: &[char]) -> (r: Option<(char, usize)>)
    ensures
        ({
            let st = strip_step(
                (
                    old(out)@,
                    match fence {
                        Some((c, n)) => Some((c, n as nat)),
                        None => None,
                    },
                ),
                line@,
            );
            &&& final(out)@ == st.0
            &&& st.1 == match r {
                Some((c, n)) => Some((c, n as nat)),
                None => None,
            }
        }),
{
    let (indent, marker) = line_marker_exec(line);
    match fence {
        Some((fc, fl)) => {
            let closes = match marker {
                Some((c, n)) => {
                    proof {
                        lemma_leading_run(line@, ' ');
                        let ind = leading_run(line@, ' ');
                        lemma_leading_run(line@.skip(ind as int), c);
                    }
                    if c == fc && n >= fl && indent <= line.len() && n <= line.len() - indent {
                        rest_is_blank(line, indent + n)
                    } else {
                        false
                    }
                },
                None => false,
            };
            out.push('\n');
            if closes {
                None
            } else {
                fence
            }
        },
        None => match marker {
            Some(m) => {
                out.push('\n');
                Some(m)
            },
            None => {
                let s = strip_inline_code(line);
                push_all(out, &s);
                out.push('\n');
                None
            },
        },
    }
}

/// Blanked-out code, or the original text when there is none.
pub enum CodeStripped<'a> {
    /// The input had no backtick or tilde, so there was nothing to strip.
    Borrowed(&'a str),
    /// The text with code regions blanked.
    Owned(String),
}

impl<'a> CodeStripped<'a> {
    /// The resulting text.
    pub fn as_str(&self) -> (r: &str)
        ensures
            r@ == match self {
                CodeStripped::Borrowed(b) => b@,
                CodeStripped::Owned(s) => s@,
            },
    {
        match self {
            CodeStripped::Borrowed(b) => b,
            CodeStripped::Owned(s) => s.as_str(),
        }
    }
}

/// Blanks out fenced code blocks and inline code spans so link extraction
/// sees only prose. Blanked regions keep their line structure (one output
/// line per input line) so line-anchored matching still behaves. Indented
/// code blocks are deliberately not stripped.
pub fn strip_code_regions(content: &str) -> (r: CodeStripped<'_>)
    ensures
        match r {
            CodeStripped::Borrowed(b) => b@ == content@ && !content@.contains('`')
                && !content@.contains('~'),
            CodeStripped::Owned(s) => s@ == stripped_code(content@) && (content@.contains('`')
                || content@.contains('~')),
        },
{
    let v = chars_of(content);
    let tick = crate::text::find_char_from(&v, '`', 0);
    let tilde = crate::text::find_char_from(&v, '~', 0);
    proof {
        crate::text::lemma_find_from_bounds(v@, '`', 0);
        crate::text::lemma_find_from_bounds(v@, '~', 0);
    }
    if tick.is_none() && tilde.is_none() {
        return CodeStripped::Borrowed(content);
    }
    proof {
        if tick is Some {
            assert(v@[tick->0 as int] == '`');
        } else {
            assert(v@[tilde->0 as int] == '~');
        }
    }
    let mut out: Vec<char> = Vec::new();
    let mut fence: Option<(char, usize)> = None;
    let mut cur: Vec<char> = Vec::new();
    let mut i: usize = 0;
    while i < v.len()
        invariant
            i <= v@.len(),
            cur@ == line_scan(v@.take(i as int)).1,
            out@ == strip_lines(line_scan(v@.take(i as int)).0).0,
            strip_lines(line_scan(v@.take(i as int)).0).1 == match fence {
                Some((c, n)) => Some((c, n as nat)),
                None => None,
            },
        decreases v@.len() - i,
    {
        assert(v@.take(i + 1).drop_last() =~= v@.take(i as int));
        if v[i] == '\n' {
            let line = if cur.len() > 0 && cur[cur.len() - 1] == '\r' {
                copy_range(&cur, 0, cur.len() - 1)
            } else {
                copy_range(&cur, 0, cur.len())
            };
            assert(line@ =~= strip_cr(cur@));
            let ghost ls = line_scan(v@.take(i as int)).0;
            assert(ls.push(line@).drop_last() =~= ls);
            fence = strip_line(&mut out, fence, &line);
            cur = Vec::new();
        } else {
            cur.push(v[i]);
        }
        i += 1;
    }
    assert(v@.take(v@.len() as int) =~= v@);
    if cur.len() > 0 {
        let ghost ls = line_scan(v@).0;
        assert(ls.push(cur@).drop_last() =~= ls);
        let _ = strip_line(&mut out, fence, &cur);
    }
    CodeStripped::Owned(string_of(&out))
}

// ---------------------------------------------------------------------------
// Inbound links of one page
// ---------------------------------------------------------------------------

/// `s` without any number of trailing `.md`.
pub open spec fn trim_md_suffixes(s: Seq<char>) -> Seq<char>
    decreases s.len(),
{
    if s.len() >= 3 && s.skip(s.len() - 3) == seq!['.', 'm', 'd'] {
        trim_md_suffixes(s.take(s.len() - 3))
    } else {
        s
    }
}

/// The base a link pattern stands for: without its trailing slash, `.md`
/// and `#` variants.
pub open spec fn extraction_base(p: Seq<char>) -> Seq<char> {
    trim_end(trim_md_suffixes(trim_end(p, '/')), '#')
}

fn trim_md_suffixes_len(v: &[char], n0: usize) -> (n: usize)
    requires
        n0 <= v@.len(),
    ensures
        n <= n0,
        v@.take(n as int) == trim_md_suffixes(v@.take(n0 as int)),
    decreases n0,
{
    if n0 >= 3 && v[n0 - 3] == '.' && v[n0 - 2] == 'm' && v[n0 - 1] == 'd' {
        assert(v@.take(n0 as int).skip(n0 - 3) =~= seq!['.', 'm', 'd']);
        assert(v@.take(n0 as int).take(n0 - 3) =~= v@.take(n0 - 3));
        trim_md_suffixes_len(v, n0 - 3)
    } else {
        if n0 >= 3 {
            assert(v@.take(n0 as int).skip(n0 - 3)[0] == v@[n0 - 3]);
            assert(v@.take(n0 as int).skip(n0 - 3)[1] == v@[n0 - 2]);
            assert(v@.take(n0 as int).skip(n0 - 3)[2] == v@[n0 - 1]);
        }
        n0
    }
}

fn extraction_base_of(p: &str) -> (r: String)
    ensures
        r@ == extraction_base(p@),
{
    let v = chars_of(p);
    let n1 = trim_end_len(&v, '/');
    let n2 = trim_md_suffixes_len(&v, n1);
    let w = copy_range(&v, 0, n2);
    assert(w@ =~= v@.take(n2 as int));
    let n3 = trim_end_len(&w, '#');
    let r = copy_range(&w, 0, n3);
    assert(r@ =~= w@.take(n3 as int));
    string_of(&r)
}

/// The distinct bases of the patterns (and then the extra names), in order
/// of first appearance.
pub open spec fn extraction_bases(patterns: Seq<Seq<char>>, names: Seq<Seq<char>>) -> Seq<Seq<char>> {
    dedup(patterns.map_values(|p: Seq<char>| extraction_base(p)) + names)
}

fn push_distinct(out: &mut Vec<String>, x: String)
    ensures
        views_of(final(out)@) == if views_of(old(out)@).contains(x@) {
            views_of(old(out)@)
        } else {
            views_of(old(out)@).push(x@)
        },
{
    let xv = chars_of(x.as_str());
    let mut k: usize = 0;
    while k < out.len()
        invariant
            xv@ == x@,
            k <= out@.len(),
            forall|j: int| 0 <= j < k ==> #[trigger] out@[j]@ != x@,
        decreases out@.len() - k,
    {
        let c = chars_of(out[k].as_str());
        if crate::text::chars_eq(&c, &xv) {
            assert(views_of(out@)[k as int] == x@);
            return;
        }
        k += 1;
    }
    assert(!views_of(out@).contains(x@)) by {
        if views_of(out@).contains(x@) {
            let j = choose|j: int| 0 <= j < views_of(out@).len() && views_of(out@)[j] == x@;
            assert(out@[j]@ == x@);
        }
    }
    let ghost before = out@;
    out.push(x);
    assert(views_of(out@) =~= views_of(before).push(x@));
}

/// The distinct extraction bases of `patterns` followed by `names`.
pub fn extraction_bases_of(patterns: &[String], names: &[String]) -> (r: Vec<String>)
    ensures
        views_of(r@) == extraction_bases(views_of(patterns@), views_of(names@)),
{
    let ghost all = views_of(patterns@).map_values(|p: Seq<char>| extraction_base(p)) + views_of(names@);
    let mut out: Vec<String> = Vec::new();
    let mut i: usize = 0;
    while i < patterns.len()
        invariant
            all == views_of(patterns@).map_values(|p: Seq<char>| extraction_base(p)) + views_of(names@),
            i <= patterns@.len(),
            views_of(out@) == dedup(all.take(i as int)),
        decreases patterns@.len() + names@.len() - i,
    {
        assert(all.take(i + 1).drop_last() =~= all.take(i as int));
        assert(all[i as int] == extraction_base(patterns@[i as int]@));
        push_distinct(&mut out, extraction_base_of(patterns[i].as_str()));
        i += 1;
    }
    let mut j: usize = 0;
    while j < names.len()
        invariant
            all == views_of(patterns@).map_values(|p: Seq<char>| extraction_base(p)) + views_of(names@),
            j <= names@.len(),
            views_of(out@) == dedup(all.take(patterns@.len() + j)),
        decreases names@.len() - j,
    {
        assert(all.take(patterns@.len() + j + 1).drop_last() =~= all.take(patterns@.len() + j));
        assert(all[patterns@.len() + j] == names@[j as int]@);
        push_distinct(&mut out, names[j].clone());
        j += 1;
    }
    assert(all.take(patterns@.len() + j) =~= all);
    out
}

/// An inline link `[text](base(.md)?(/)?(#anchor)?)` to one of the bases.
pub const LINK_HEAD: &'static str = r"\[(?P<text>[^\]]*)\]\((?:";
pub const LINK_TAIL: &'static str = r")(?:\.md)?(?:/)?(?:#(?P<anchor>[^)]*))?\)";
pub const LINK_GROUPS: [&'static str; 2] = ["text", "anchor"];

/// A wiki link `[[base(.md)?(/)?(#anchor)?(|text)?]]`, case-insensitively.
pub const WIKI_LINK_HEAD: &'static str = r"(?i)\[\[(?:";
pub const WIKI_LINK_TAIL: &'static str = r")(?:\.md)?(?:/)?(?:#(?P<anchor>[^\]|]*))?(?:\|(?P<text>[^\]]*))?\]\]";
pub const WIKI_LINK_GROUPS: [&'static str; 2] = ["anchor", "text"];

/// A reference definition `[name]: base...`.
pub const REF_DEF_HEAD: &'static str = r"\[(?P<name>[^\]]+)\]:\s*(?:";
pub const REF_DEF_TAIL: &'static str = r")(?:\.md)?(?:/)?(?:#\S*)?";
pub const REF_DEF_GROUPS: [&'static str; 1] = ["name"];

/// A use `[text][name]` of a reference, around the escaped name.
pub const REF_USE_HEAD: &'static str = r"\[(?P<text>[^\]]*)\]\[";
pub const REF_USE_TAIL: &'static str = r"\]";
pub const REF_USE_GROUPS: [&'static str; 1] = ["text"];

/// Some pattern occurs in `text`, ASCII letters compared without case.
pub open spec fn occurs_ascii_ci(patterns: Seq<Seq<char>>, text: Seq<char>) -> bool {
    exists|i: int, k: int|
        0 <= i < patterns.len() && 0 <= k && k + patterns[i].len() <= text.len() && #[trigger] ascii_lowercase(
            text.subrange(k, k + patterns[i].len()),
        ) == ascii_lowercase(#[trigger] patterns[i])
}

/// Whether the Aho-Corasick automaton built from `patterns` (ASCII
/// case-insensitive, leftmost-first) matches `text`; `None` when the
/// automaton cannot be built.
pub uninterp spec fn ac_match(patterns: Seq<Seq<char>>, text: Seq<char>) -> Option<bool>;

/// Builds an `aho_corasick::AhoCorasick` over `patterns` with
/// `ascii_case_insensitive(true)` and `MatchKind::LeftmostFirst`, and asks
/// `is_match(text)`. The contract states what the crate documents: an
/// automaton that was built matches exactly when some pattern occurs in the
/// text, ASCII letters compared without case. When the build fails is left
/// to the crate.
#[verifier::external_body]
pub(crate) fn gate_matches(patterns: &[String], text: &str) -> (r: Option<bool>)
    ensures
        r == ac_match(views_of(patterns@), text@),
        r matches Some(b) ==> b == occurs_ascii_ci(views_of(patterns@), text@),
{
    let ac = aho_corasick::AhoCorasickBuilder::new()
        .ascii_case_insensitive(true)
        .match_kind(aho_corasick::MatchKind::LeftmostFirst)
        .build(patterns)
        .ok()?;
    Some(ac.is_match(text))
}

/// What [`strip_code_regions`] gives back as text.
pub open spec fn code_stripped(content: Seq<char>) -> Seq<char> {
    if content.contains('`') || content.contains('~') {
        stripped_code(content)
    } else {
        content
    }
}

/// `#` before an anchor.
pub open spec fn hash_anchor(a: Seq<char>) -> Seq<char> {
    seq!['#'] + a
}

/// The inbound links of the inline-link matches.
pub open spec fn inline_found(ps: Seq<PieceView>, from: Seq<char>) -> Seq<InboundLinkView> {
    ps.map_values(
        |p: PieceView|
            InboundLinkView {
                from,
                text: group_text(p.2[0]),
                anchor: match p.2[1] {
                    Some(a) => Some(hash_anchor(a)),
                    None => None,
                },
            },
    )
}

/// The inbound links of the wiki-link matches: an empty anchor counts as
/// none, and a missing or blank display text falls back to `default_text`.
pub open spec fn wiki_found(ps: Seq<PieceView>, from: Seq<char>, default_text: Seq<char>) -> Seq<InboundLinkView> {
    ps.map_values(
        |p: PieceView|
            InboundLinkView {
                from,
                text: match p.2[1] {
                    Some(t) => if trim_ws(t).len() > 0 {
                        trim_ws(t)
                    } else {
                        default_text
                    },
                    None => default_text,
                },
                anchor: match p.2[0] {
                    Some(a) => if a.len() > 0 {
                        Some(hash_anchor(a))
                    } else {
                        None
                    },
                    None => None,
                },
            },
    )
}

/// `acc` with each link appended unless an equal one is already there.
pub open spec fn add_unique(acc: Seq<InboundLinkView>, ls: Seq<InboundLinkView>) -> Seq<InboundLinkView>
    decreases ls.len(),
{
    if ls.len() == 0 {
        acc
    } else {
        let a = add_unique(acc, ls.drop_last());
        if a.contains(ls.last()) {
            a
        } else {
            a.push(ls.last())
        }
    }
}

/// The uses `[text][name]` of a reference in `text`, as links from `from`.
pub open spec fn ref_uses(text: Seq<char>, name: Seq<char>, from: Seq<char>) -> Seq<InboundLinkView> {
    match regex_pieces(REF_USE_HEAD@ + regex_escaped(name) + REF_USE_TAIL@, text, name_views(REF_USE_GROUPS@)) {
        Some(p) => p.0.map_values(
            |u: PieceView| InboundLinkView { from, text: group_text(u.2[0]), anchor: None },
        ),
        None => Seq::empty(),
    }
}

/// The uses of each defined reference, in order.
pub open spec fn all_ref_uses(text: Seq<char>, defs: Seq<PieceView>, from: Seq<char>) -> Seq<InboundLinkView>
    decreases defs.len(),
{
    if defs.len() == 0 {
        Seq::empty()
    } else {
        all_ref_uses(text, defs.drop_last(), from) + ref_uses(text, group_text(defs.last().2[0]), from)
    }
}

/// The regular expression for one kind of link to the given bases.
pub open spec fn link_pattern(head: Seq<char>, bases: Seq<Seq<char>>, tail: Seq<char>) -> Seq<char> {
    head + alternation(bases) + tail
}

/// What [`collect_inbound_links_in`] leaves in the list: `prev` followed by
/// the links of the page `from` with text `content` to the target whose
/// link patterns (from the page's folder) are `patterns` and whose bare wiki
/// names are `names`. Nothing is added unless the patterns or names occur in
/// the page; links in code are ignored; inline links are all added, wiki
/// links once each, and reference-style links only when neither of the
/// others was added.
pub open spec fn page_inbound(
    prev: Seq<InboundLinkView>,
    content: Seq<char>,
    from: Seq<char>,
    patterns: Seq<Seq<char>>,
    names: Seq<Seq<char>>,
    default_text: Seq<char>,
) -> Seq<InboundLinkView> {
    let gate = patterns + names;
    if gate.len() == 0 || !(ac_match(gate, content) == Some(true)) {
        prev
    } else {
        let s = code_stripped(content);
        let bases = extraction_bases(patterns, Seq::empty());
        let inline = if patterns.len() > 0 {
            match regex_pieces(link_pattern(LINK_HEAD@, bases, LINK_TAIL@), s, name_views(LINK_GROUPS@)) {
                Some(p) => inline_found(p.0, from),
                None => Seq::empty(),
            }
        } else {
            Seq::empty()
        };
        let a = prev + inline;
        let b = match regex_pieces(
            link_pattern(WIKI_LINK_HEAD@, extraction_bases(patterns, names), WIKI_LINK_TAIL@),
            s,
            name_views(WIKI_LINK_GROUPS@),
        ) {
            Some(p) => add_unique(a, wiki_found(p.0, from, default_text)),
            None => a,
        };
        let found = inline.len() > 0 || b.len() > a.len();
        if found || patterns.len() == 0 {
            b
        } else {
            match regex_pieces(link_pattern(REF_DEF_HEAD@, bases, REF_DEF_TAIL@), s, name_views(REF_DEF_GROUPS@)) {
                Some(p) => add_unique(b, all_ref_uses(s, p.0, from)),
                None => b,
            }
        }
    }
}

fn clone_opt(o: &Option<String>) -> (r: Option<String>)
    ensures
        opt_view(r) == opt_view(*o),
{
    match o {
        Some(x) => Some(x.clone()),
        None => None,
    }
}

fn same_opt(a: &Option<String>, b: &Option<String>) -> (r: bool)
    ensures
        r == (opt_view(*a) == opt_view(*b)),
{
    match (a, b) {
        (Some(x), Some(y)) => {
            let xc = chars_of(x.as_str());
            let yc = chars_of(y.as_str());
            crate::text::chars_eq(&xc, &yc)
        },
        (None, None) => true,
        _ => false,
    }
}

fn same_link(a: &InboundLink, b: &InboundLink) -> (r: bool)
    ensures
        r == (a@ == b@),
{
    let af = chars_of(a.from.as_str());
    let bf = chars_of(b.from.as_str());
    let at = chars_of(a.text.as_str());
    let bt = chars_of(b.text.as_str());
    crate::text::chars_eq(&af, &bf) && crate::text::chars_eq(&at, &bt) && same_opt(&a.anchor, &b.anchor)
}

/// Appends `l` unless an equal link is already in `links`.
fn add_unique_link(links: &mut Vec<InboundLink>, l: InboundLink) -> (added: bool)
    ensures
        added == !inbound_views(old(links)@).contains(l@),
        inbound_views(final(links)@) == if added {
            inbound_views(old(links)@).push(l@)
        } else {
            inbound_views(old(links)@)
        },
{
    let mut k: usize = 0;
    while k < links.len()
        invariant
            k <= links@.len(),
            forall|j: int| 0 <= j < k ==> #[trigger] links@[j]@ != l@,
        decreases links@.len() - k,
    {
        if same_link(&links[k], &l) {
            assert(inbound_views(links@)[k as int] == l@);
            return false;
        }
        k += 1;
    }
    assert(!inbound_views(links@).contains(l@)) by {
        if inbound_views(links@).contains(l@) {
            let j = choose|j: int| 0 <= j < inbound_views(links@).len() && inbound_views(links@)[j] == l@;
            assert(links@[j]@ == l@);
        }
    }
    let ghost before = links@;
    links.push(l);
    assert(inbound_views(links@) =~= inbound_views(before).push(l@));
    true
}

proof fn lemma_add_unique_len(acc: Seq<InboundLinkView>, ls: Seq<InboundLinkView>)
    ensures
        add_unique(acc, ls).len() >= acc.len(),
        add_unique(acc, ls).take(acc.len() as int) == acc,
    decreases ls.len(),
{
    if ls.len() > 0 {
        lemma_add_unique_len(acc, ls.drop_last());
        let a = add_unique(acc, ls.drop_last());
        if !a.contains(ls.last()) {
            assert(a.push(ls.last()).take(acc.len() as int) =~= a.take(acc.len() as int));
        }
    }
}

fn push_inline_links(links: &mut Vec<InboundLink>, pieces: &Vec<RegexPiece>, from: &str)
    requires
        forall|k: int| 0 <= k < pieces@.len() ==> (#[trigger] pieces@[k]).groups@.len() == 2,
    ensures
        inbound_views(final(links)@) == inbound_views(old(links)@) + inline_found(piece_views(pieces@), from@),
{
    let ghost pv = piece_views(pieces@);
    let ghost start = inbound_views(links@);
    let mut i: usize = 0;
    while i < pieces.len()
        invariant
            pv == piece_views(pieces@),
            forall|k: int| 0 <= k < pieces@.len() ==> (#[trigger] pieces@[k]).groups@.len() == 2,
            i <= pieces@.len(),
            inbound_views(links@) == start + inline_found(pv.take(i as int), from@),
        decreases pieces@.len() - i,
    {
        let gs = &pieces[i].groups;
        assert(gs@.len() == 2);
        assert(pv[i as int].2 == gs@.map_values(|g: Option<String>| opt_view(g)));
        let text = string_of(&group_chars(&gs[0]));
        let anchor = match &gs[1] {
            Some(a) => {
                let mut h: Vec<char> = vec!['#'];
                let ac = chars_of(a.as_str());
                push_all(&mut h, &ac);
                assert(h@ =~= hash_anchor(a@));
                Some(string_of(&h))
            },
            None => None,
        };
        let ghost before = links@;
        links.push(InboundLink { from: from.to_owned(), text, anchor });
        assert(inline_found(pv.take(i + 1), from@) =~= inline_found(pv.take(i as int), from@).push(
            inline_found(pv, from@)[i as int],
        ));
        assert(inbound_views(links@) =~= inbound_views(before).push(inline_found(pv, from@)[i as int]));
        i += 1;
    }
    assert(pv.take(i as int) =~= pv);
}

fn wiki_link_of(piece: &RegexPiece, from: &str, default_text: &str) -> (r: InboundLink)
    requires
        piece.groups@.len() == 2,
    ensures
        r@ == wiki_found(piece_views(seq![*piece]), from@, default_text@)[0],
{
    let gs = &piece.groups;
    let ghost pv = piece_views(seq![*piece])[0];
    assert(pv.2 == gs@.map_values(|g: Option<String>| opt_view(g)));
    let anchor = match &gs[0] {
        Some(a) => {
            if a.as_str().is_empty() {
                None
            } else {
                let mut h: Vec<char> = vec!['#'];
                let ac = chars_of(a.as_str());
                push_all(&mut h, &ac);
                assert(h@ =~= hash_anchor(a@));
                Some(string_of(&h))
            }
        },
        None => None,
    };
    let text = match &gs[1] {
        Some(t) => {
            let tc = chars_of(t.as_str());
            let tr = crate::page_errors::trim_chars(&tc);
            if tr.len() > 0 {
                string_of(&tr)
            } else {
                default_text.to_owned()
            }
        },
        None => default_text.to_owned(),
    };
    InboundLink { from: from.to_owned(), text, anchor }
}

fn add_wiki_links(links: &mut Vec<InboundLink>, pieces: &Vec<RegexPiece>, from: &str, default_text: &str)
    requires
        forall|k: int| 0 <= k < pieces@.len() ==> (#[trigger] pieces@[k]).groups@.len() == 2,
    ensures
        inbound_views(final(links)@) == add_unique(
            inbound_views(old(links)@),
            wiki_found(piece_views(pieces@), from@, default_text@),
        ),
{
    let ghost pv = piece_views(pieces@);
    let ghost start = inbound_views(links@);
    let ghost wf = wiki_found(pv, from@, default_text@);
    let mut i: usize = 0;
    while i < pieces.len()
        invariant
            pv == piece_views(pieces@),
            wf == wiki_found(pv, from@, default_text@),
            forall|k: int| 0 <= k < pieces@.len() ==> (#[trigger] pieces@[k]).groups@.len() == 2,
            i <= pieces@.len(),
            inbound_views(links@) == add_unique(start, wf.take(i as int)),
        decreases pieces@.len() - i,
    {
        assert(piece_views(seq![pieces@[i as int]])[0] == pv[i as int]);
        let l = wiki_link_of(&pieces[i], from, default_text);
        assert(l@ == wf[i as int]);
        assert(wf.take(i + 1).drop_last() =~= wf.take(i as int));
        add_unique_link(links, l);
        i += 1;
    }
    assert(wf.take(i as int) =~= wf);
}

fn add_ref_links(links: &mut Vec<InboundLink>, text: &str, defs: &Vec<RegexPiece>, from: &str)
    requires
        forall|k: int| 0 <= k < defs@.len() ==> (#[trigger] defs@[k]).groups@.len() == 1,
    ensures
        inbound_views(final(links)@) == add_unique(inbound_views(old(links)@), all_ref_uses(text@, piece_views(defs@), from@)),
{
    let ghost dv = piece_views(defs@);
    let ghost start = inbound_views(links@);
    let mut i: usize = 0;
    while i < defs.len()
        invariant
            dv == piece_views(defs@),
            forall|k: int| 0 <= k < defs@.len() ==> (#[trigger] defs@[k]).groups@.len() == 1,
            i <= defs@.len(),
            inbound_views(links@) == add_unique(start, all_ref_uses(text@, dv.take(i as int), from@)),
        decreases defs@.len() - i,
    {
        let gs = &defs[i].groups;
        assert(gs@.len() == 1);
        assert(dv[i as int].2 == gs@.map_values(|g: Option<String>| opt_view(g)));
        assert(dv.take(i + 1).drop_last() =~= dv.take(i as int));
        let name = string_of(&group_chars(&gs[0]));
        let esc = regex_escape(name.as_str());
        let pattern = pattern_of(REF_USE_HEAD, esc.as_str(), REF_USE_TAIL);
        let ghost prior = inbound_views(links@);
        let ghost uses = ref_uses(text@, name@, from@);
        match regex_split(pattern.as_str(), text, &REF_USE_GROUPS) {
            Some((ups, _)) => {
                let ghost uv = piece_views(ups@);
                let mut j: usize = 0;
                while j < ups.len()
                    invariant
                        uv == piece_views(ups@),
                        uses == uv.map_values(
                            |u: PieceView| InboundLinkView { from: from@, text: group_text(u.2[0]), anchor: None },
                        ),
                        forall|k: int| 0 <= k < ups@.len() ==> (#[trigger] ups@[k]).groups@.len() == 1,
                        j <= ups@.len(),
                        inbound_views(links@) == add_unique(prior, uses.take(j as int)),
                    decreases ups@.len() - j,
                {
                    let ugs = &ups[j].groups;
                    assert(ugs@.len() == 1);
                    assert(uv[j as int].2 == ugs@.map_values(|g: Option<String>| opt_view(g)));
                    let t = string_of(&group_chars(&ugs[0]));
                    assert(uses.take(j + 1).drop_last() =~= uses.take(j as int));
                    add_unique_link(links, InboundLink { from: from.to_owned(), text: t, anchor: None });
                    j += 1;
                }
                assert(uses.take(j as int) =~= uses);
            },
            None => {
                assert(uses.take(0) =~= uses);
            },
        }
        proof {
            lemma_add_unique_concat(start, all_ref_uses(text@, dv.take(i as int), from@), uses);
        }
        i += 1;
    }
    assert(dv.take(i as int) =~= dv);
}

proof fn lemma_add_unique_concat(acc: Seq<InboundLinkView>, a: Seq<InboundLinkView>, b: Seq<InboundLinkView>)
    ensures
        add_unique(acc, a + b) == add_unique(add_unique(acc, a), b),
    decreases b.len(),
{
    if b.len() == 0 {
        assert(a + b =~= a);
    } else {
        assert((a + b).drop_last() =~= a + b.drop_last());
        assert((a + b).last() == b.last());
        lemma_add_unique_concat(acc, a, b.drop_last());
    }
}

fn strings_concat(a: &[String], b: &[String]) -> (r: Vec<String>)
    ensures
        views_of(r@) == views_of(a@) + views_of(b@),
{
    let mut r: Vec<String> = Vec::new();
    let mut i: usize = 0;
    while i < a.len()
        invariant
            i <= a@.len(),
            views_of(r@) == views_of(a@).take(i as int),
        decreases a@.len() - i,
    {
        let ghost before = r@;
        r.push(a[i].clone());
        assert(views_of(r@) =~= views_of(before).push(a@[i as int]@));
        assert(views_of(a@).take(i + 1) =~= views_of(a@).take(i as int).push(a@[i as int]@));
        i += 1;
    }
    let mut j: usize = 0;
    while j < b.len()
        invariant
            i == a@.len(),
            j <= b@.len(),
            views_of(r@) == views_of(a@) + views_of(b@).take(j as int),
        decreases b@.len() - j,
    {
        let ghost before = r@;
        r.push(b[j].clone());
        assert(views_of(r@) =~= views_of(before).push(b@[j as int]@));
        assert(views_of(b@).take(j + 1) =~= views_of(b@).take(j as int).push(b@[j as int]@));
        j += 1;
    }
    assert(views_of(a@).take(i as int) =~= views_of(a@));
    assert(views_of(b@).take(j as int) =~= views_of(b@));
    r
}

/// Appends to `links` the links of the page `from` (text `content`) to a
/// target, given the target's link `patterns` from the page's folder (see
/// [`compute_patterns_for_folder`]) and its bare wiki `names`;
/// `default_text` is the text of a wiki link without display text (the
/// target's last URL segment). See [`page_inbound`].
pub fn collect_inbound_links_in(
    links: &mut Vec<InboundLink>,
    content: &str,
    from: &str,
    patterns: &[String],
    names: &[String],
    default_text: &str,
)
    ensures
        inbound_views(final(links)@) == page_inbound(
            inbound_views(old(links)@),
            content@,
            from@,
            views_of(patterns@),
            views_of(names@),
            default_text@,
        ),
{
    let gate = strings_concat(patterns, names);
    if gate.len() == 0 {
        return;
    }
    match gate_matches(&gate, content) {
        Some(true) => {},
        _ => {
            return;
        },
    }
    let stripped = strip_code_regions(content);
    let s = stripped.as_str();
    assert(s@ == code_stripped(content@));
    let no_names: [String; 0] = [];
    assert(views_of(no_names@) =~= Seq::<Seq<char>>::empty());
    let bases = extraction_bases_of(patterns, &no_names);
    let ghost prev = inbound_views(links@);
    let mut found = false;
    if patterns.len() > 0 {
        let alt = alternation_of(&bases);
        let pattern = pattern_of(LINK_HEAD, alt.as_str(), LINK_TAIL);
        match regex_split(pattern.as_str(), s, &LINK_GROUPS) {
            Some((ps, _)) => {
                push_inline_links(links, &ps, from);
                found = ps.len() > 0;
            },
            None => {},
        }
    }
    let ghost a = inbound_views(links@);
    assert(a.len() > prev.len() <==> found) by {
        assert(a.len() >= prev.len());
    }
    let all_bases = extraction_bases_of(patterns, names);
    let walt = alternation_of(&all_bases);
    let wpattern = pattern_of(WIKI_LINK_HEAD, walt.as_str(), WIKI_LINK_TAIL);
    match regex_split(wpattern.as_str(), s, &WIKI_LINK_GROUPS) {
        Some((ps, _)) => {
            let before = links.len();
            add_wiki_links(links, &ps, from, default_text);
            proof {
                lemma_add_unique_len(a, wiki_found(piece_views(ps@), from@, default_text@));
            }
            if links.len() > before {
                found = true;
            }
        },
        None => {},
    }
    if found || patterns.len() == 0 {
        return;
    }
    let alt = alternation_of(&bases);
    let rpattern = pattern_of(REF_DEF_HEAD, alt.as_str(), REF_DEF_TAIL);
    match regex_split(rpattern.as_str(), s, &REF_DEF_GROUPS) {
        Some((defs, _)) => {
            add_ref_links(links, s, &defs, from);
        },
        None => {},
    }
}

/// `links` keeping only the first link from each source page.
pub open spec fn first_per_source(links: Seq<InboundLinkView>) -> Seq<InboundLinkView>
    decreases links.len(),
{
    if links.len() == 0 {
        Seq::empty()
    } else {
        let rest = first_per_source(links.drop_last());
        if exists|k: int| 0 <= k < rest.len() && #[trigger] rest[k].from == links.last().from {
            rest
        } else {
            rest.push(links.last())
        }
    }
}

fn has_source(links: &Vec<InboundLink>, from: &str) -> (r: bool)
    ensures
        r == exists|k: int| 0 <= k < links@.len() && #[trigger] inbound_views(links@)[k].from == from@,
{
    let f = chars_of(from);
    let mut k: usize = 0;
    while k < links.len()
        invariant
            f@ == from@,
            k <= links@.len(),
            forall|j: int| 0 <= j < k ==> #[trigger] links@[j].from@ != from@,
        decreases links@.len() - k,
    {
        let c = chars_of(links[k].from.as_str());
        if crate::text::chars_eq(&c, &f) {
            assert(inbound_views(links@)[k as int].from == from@);
            return true;
        }
        k += 1;
    }
    assert forall|j: int| 0 <= j < links@.len() implies #[trigger] inbound_views(links@)[j].from != from@ by {
        assert(inbound_views(links@)[j] == links@[j]@);
    }
    false
}

/// What [`finish_inbound_links`] returns for the links `links`: the links
/// in [`inbound_order`], reduced to the first from each source page.
pub open spec fn finished_inbound(links: Seq<InboundLinkView>) -> Seq<InboundLinkView> {
    first_per_source(links.sort_by(inbound_order()))
}

/// The final list of inbound links: sorted (by source, text, anchor) and
/// then reduced to the first link from each source page, so the result
/// does not depend on the order in which pages were scanned.
pub fn finish_inbound_links(links: Vec<InboundLink>) -> (r: Vec<InboundLink>)
    ensures
        inbound_views(r@) == finished_inbound(inbound_views(links@)),
{
    let ghost iv = inbound_views(links@);
    let mut links = links;
    sort_inbound_links(&mut links);
    let ghost sv = inbound_views(links@);
    proof {
        lemma_inbound_le_total_ordering();
        iv.lemma_sort_by_ensures(inbound_order());
        vstd::seq_lib::lemma_sorted_unique(sv, iv.sort_by(inbound_order()), inbound_order());
    }
    let mut out: Vec<InboundLink> = Vec::new();
    let mut i: usize = 0;
    while i < links.len()
        invariant
            sv == inbound_views(links@),
            i <= links@.len(),
            inbound_views(out@) == first_per_source(sv.take(i as int)),
        decreases links@.len() - i,
    {
        assert(sv.take(i + 1).drop_last() =~= sv.take(i as int));
        assert(sv[i as int] == links@[i as int]@);
        if !has_source(&out, links[i].from.as_str()) {
            let l = InboundLink {
                from: links[i].from.clone(),
                text: links[i].text.clone(),
                anchor: clone_opt(&links[i].anchor),
            };
            let ghost before = out@;
            out.push(l);
            assert(inbound_views(out@) =~= inbound_views(before).push(sv[i as int]));
        }
        i += 1;
    }
    assert(sv.take(i as int) =~= sv);
    out
}

/// The backlinks a page gets do not depend on the order in which the
/// repository was scanned: two scans that found the same links (with the
/// same repeats) end with the same list.
pub proof fn law_backlinks_ignore_scan_order(a: Seq<InboundLinkView>, b: Seq<InboundLinkView>)
    requires
        a.to_multiset() == b.to_multiset(),
    ensures
        finished_inbound(a) == finished_inbound(b),
{
    lemma_inbound_le_total_ordering();
    a.lemma_sort_by_ensures(inbound_order());
    b.lemma_sort_by_ensures(inbound_order());
    vstd::seq_lib::lemma_sorted_unique(a.sort_by(inbound_order()), b.sort_by(inbound_order()), inbound_order());
}

proof fn lemma_first_per_source_distinct(links: Seq<InboundLinkView>)
    ensures
        forall|x: int, y: int|
            0 <= x < y < first_per_source(links).len() ==> first_per_source(links)[x].from
                != first_per_source(links)[y].from,
    decreases links.len(),
{
    if links.len() > 0 {
        lemma_first_per_source_distinct(links.drop_last());
        let rest = first_per_source(links.drop_last());
        if !(exists|k: int| 0 <= k < rest.len() && #[trigger] rest[k].from == links.last().from) {
            let r = first_per_source(links);
            assert forall|x: int, y: int| 0 <= x < y < r.len() implies r[x].from != r[y].from by {
                if y == rest.len() {
                    assert(rest[x].from != links.last().from);
                }
            }
        }
    }
}

/// Each source page appears at most once among a page's backlinks.
pub proof fn law_backlinks_one_per_source(links: Seq<InboundLinkView>)
    ensures
        forall|x: int, y: int|
            0 <= x < y < finished_inbound(links).len() ==> finished_inbound(links)[x].from
                != finished_inbound(links)[y].from,
{
    lemma_first_per_source_distinct(links.sort_by(inbound_order()));
}

proof fn lemma_first_per_source_sorted(s: Seq<InboundLinkView>)
    requires
        vstd::relations::sorted_by(s, inbound_order()),
    ensures
        vstd::relations::sorted_by(first_per_source(s), inbound_order()),
        forall|x: int| 0 <= x < first_per_source(s).len() ==> exists|k: int| 0 <= k < s.len() && #[trigger] first_per_source(s)[x] == s[k],
    decreases s.len(),
{
    if s.len() > 0 {
        let init = s.drop_last();
        assert(vstd::relations::sorted_by(init, inbound_order())) by {
            assert forall|i: int, j: int| 0 <= i < j < init.len() implies #[trigger] (inbound_order())(init[i], init[j]) by {
                assert(init[i] == s[i] && init[j] == s[j]);
            }
        }
        lemma_first_per_source_sorted(init);
        let rest = first_per_source(init);
        let r = first_per_source(s);
        assert forall|x: int| 0 <= x < r.len() implies exists|k: int| 0 <= k < s.len() && #[trigger] r[x] == s[k] by {
            if x < rest.len() {
                assert(r[x] == rest[x]);
                let k = choose|k: int| 0 <= k < init.len() && rest[x] == init[k];
                assert(s[k] == init[k]);
            } else {
                assert(r[x] == s[s.len() - 1]);
            }
        }
        assert forall|x: int, y: int| 0 <= x < y < r.len() implies #[trigger] (inbound_order())(r[x], r[y]) by {
            if y < rest.len() {
                assert(r[x] == rest[x] && r[y] == rest[y]);
            } else {
                assert(r[x] == rest[x]);
                let k = choose|k: int| 0 <= k < init.len() && rest[x] == init[k];
                assert(s[k] == init[k]);
                assert(r[y] == s[s.len() - 1]);
            }
        }
    }
}

/// A page's backlinks come sorted by source, then text, then anchor.
pub proof fn law_backlinks_sorted(links: Seq<InboundLinkView>)
    ensures
        vstd::relations::sorted_by(finished_inbound(links), inbound_order()),
{
    lemma_inbound_le_total_ordering();
    links.lemma_sort_by_ensures(inbound_order());
    lemma_first_per_source_sorted(links.sort_by(inbound_order()));
}

/// A path part: not empty and without `/`.
pub open spec fn plain_part(p: Seq<char>) -> bool {
    p.len() > 0 && !p.contains('/')
}

proof fn lemma_split_scan_concat(p: Seq<char>, q: Seq<char>)
    requires
        split_scan(p).1.len() == 0,
    ensures
        split_scan(p + q) == (split_scan(p).0 + split_scan(q).0, split_scan(q).1),
    decreases q.len(),
{
    if q.len() == 0 {
        assert(p + q =~= p);
        assert(split_scan(p).0 + split_scan(q).0 =~= split_scan(p).0);
        assert(split_scan(p).1 =~= Seq::<char>::empty());
    } else {
        lemma_split_scan_concat(p, q.drop_last());
        assert((p + q).drop_last() =~= p + q.drop_last());
        assert((p + q).last() == q.last());
        let a = split_scan(p).0;
        let b = split_scan(q.drop_last());
        if q.last() == '/' {
            assert((a + b.0).push(b.1) =~= a + b.0.push(b.1));
        }
    }
}

proof fn lemma_split_scan_plain(x: Seq<char>)
    requires
        !x.contains('/'),
    ensures
        split_scan(x) == (Seq::<Seq<char>>::empty(), x),
    decreases x.len(),
{
    if x.len() > 0 {
        assert(!x.drop_last().contains('/')) by {
            if x.drop_last().contains('/') {
                let j = choose|j: int| 0 <= j < x.drop_last().len() && x.drop_last()[j] == '/';
                assert(x[j] == '/');
            }
        }
        lemma_split_scan_plain(x.drop_last());
        assert(x[x.len() - 1] != '/');
        assert(x.drop_last().push(x.last()) =~= x);
    } else {
        assert(x =~= Seq::<char>::empty());
    }
}

/// Joining plain parts with `/` and splitting again gives them back, with
/// either way of splitting; the join starts and ends inside its parts.
proof fn lemma_join_split(parts: Seq<Seq<char>>)
    requires
        parts.len() > 0,
        forall|i: int| 0 <= i < parts.len() ==> plain_part(#[trigger] parts[i]),
    ensures
        split_scan(join_slash(parts)) == (parts.drop_last(), parts.last()),
        seg_scan(join_slash(parts)) == (parts.drop_last(), parts.last()),
        join_slash(parts).len() > 0,
        join_slash(parts)[0] == parts[0][0],
        join_slash(parts).last() == parts.last().last(),
    decreases parts.len(),
{
    let last = parts.last();
    assert(plain_part(parts[parts.len() - 1]));
    if parts.len() == 1 {
        lemma_split_scan_plain(last);
        lemma_seg_scan_plain(last);
        assert(parts.drop_last() =~= Seq::<Seq<char>>::empty());
    } else {
        let init = parts.drop_last();
        assert forall|i: int| 0 <= i < init.len() implies plain_part(#[trigger] init[i]) by {
            assert(init[i] == parts[i]);
        }
        lemma_join_split(init);
        let j = join_slash(init);
        let js = j.push('/');
        assert(js.drop_last() =~= j);
        assert(init.drop_last().push(init.last()) =~= init);
        assert(split_scan(js) == (init, Seq::<char>::empty()));
        assert(plain_part(init[init.len() - 1]));
        assert(seg_scan(js) == (init, Seq::<char>::empty()));
        lemma_split_scan_plain(last);
        lemma_seg_scan_plain(last);
        assert(join_slash(parts) =~= js + last);
        lemma_split_scan_concat(js, last);
        crate::link_transform::lemma_seg_scan_concat(js, last);
        assert(init + Seq::<Seq<char>>::empty() =~= init);
        assert(join_slash(parts)[0] == j[0]);
        assert(parts[0] == init[0]);
    }
}

/// `dir_url` of non-empty plain parts is `/`, their join, and `/`.
proof fn lemma_dir_url_join(segs: Seq<Seq<char>>)
    requires
        segs.len() > 0,
    ensures
        dir_url(segs) == seq!['/'] + join_slash(segs) + seq!['/'],
    decreases segs.len(),
{
    if segs.len() == 1 {
        assert(segs.drop_last() =~= Seq::<Seq<char>>::empty());
        assert(dir_url(segs) == dir_url(segs.drop_last()) + segs.last() + seq!['/']);
    } else {
        lemma_dir_url_join(segs.drop_last());
        assert(dir_url(segs) == dir_url(segs.drop_last()) + segs.last() + seq!['/']);
        assert(join_slash(segs) == join_slash(segs.drop_last()) + seq!['/'] + segs.last());
        assert(dir_url(segs) =~= seq!['/'] + join_slash(segs) + seq!['/']);
    }
}

/// The parts of a directory URL made of clean segments are those segments.
proof fn lemma_path_parts_dir_url(segs: Seq<Seq<char>>)
    requires
        forall|i: int| 0 <= i < segs.len() ==> crate::link_index::clean_segment(#[trigger] segs[i]),
    ensures
        path_parts(dir_url(segs)) == segs,
        segments(dir_url(segs)) == segs,
{
    crate::link_index::lemma_dir_url_scan(segs);
    if segs.len() == 0 {
        assert(dir_url(segs) == seq!['/']);
        assert(seq!['/'].drop_first() =~= Seq::<char>::empty());
        assert(trim_start(Seq::<char>::empty(), '/') == Seq::<char>::empty());
        assert(trim_start(seq!['/'], '/') =~= Seq::<char>::empty());
        assert(trim_end(Seq::<char>::empty(), '/') == Seq::<char>::empty());
    } else {
        assert forall|i: int| 0 <= i < segs.len() implies plain_part(#[trigger] segs[i]) by {
            assert(crate::link_index::clean_segment(segs[i]));
        }
        lemma_join_split(segs);
        lemma_dir_url_join(segs);
        let j = join_slash(segs);
        assert(crate::link_index::clean_segment(segs[0]));
        assert(crate::link_index::clean_segment(segs[segs.len() - 1]));
        assert(segs[0][0] != '/') by {
            assert(!segs[0].contains('/'));
        }
        assert(segs.last().last() != '/') by {
            assert(segs.last()[segs.last().len() - 1] == segs.last().last());
            assert(!segs.last().contains('/'));
        }
        let u = dir_url(segs);
        assert(u.drop_first() =~= j + seq!['/']);
        assert(trim_start(j + seq!['/'], '/') == j + seq!['/']) by {
            assert((j + seq!['/'])[0] == j[0]);
        }
        assert(trim_start(u, '/') == j + seq!['/']);
        assert((j + seq!['/']).drop_last() =~= j);
        assert(trim_end(j, '/') == j);
        assert(trim_end(j + seq!['/'], '/') == j);
        assert(segs.drop_last().push(segs.last()) =~= segs);
    }
}

/// Resolving plain names from a directory descends into them.
proof fn lemma_apply_plain(s: Seq<Seq<char>>, parts: Seq<Seq<char>>)
    requires
        forall|i: int| 0 <= i < parts.len() ==> crate::link_index::clean_segment(#[trigger] parts[i]),
    ensures
        apply_clamped(s, parts) == s + parts,
    decreases parts.len(),
{
    if parts.len() == 0 {
        assert(s + parts =~= s);
    } else {
        lemma_apply_plain(s, parts.drop_last());
        assert(crate::link_index::clean_segment(parts[parts.len() - 1]));
        assert((s + parts.drop_last()).push(parts.last()) =~= s + parts);
    }
}

/// The relative path between two folders leads back: resolved against the
/// source folder (a folder, so as an index page), the path computed from
/// `source_folder` to `target_path` names `target_path` again. Both are
/// directory URLs of plain names (not empty, not `.` or `..`, without `/`,
/// `?` or `#`).
pub proof fn law_relative_path_resolves_back(source: Seq<Seq<char>>, target: Seq<Seq<char>>)
    requires
        forall|i: int| 0 <= i < source.len() ==> crate::link_index::clean_segment(#[trigger] source[i]),
        forall|i: int| 0 <= i < target.len() ==> crate::link_index::clean_segment(#[trigger] target[i]),
    ensures
        resolved_url(dir_url(source), relative_path(dir_url(source), dir_url(target)), true) == dir_url(target),
{
    lemma_path_parts_dir_url(source);
    lemma_path_parts_dir_url(target);
    lemma_common_prefix(source, target);
    let c = common_prefix_len(source, target);
    let ups = Seq::new((source.len() - c) as nat, |i: int| seq!['.', '.']);
    let rest = target.skip(c as int);
    let parts = ups + rest;
    let rel = relative_path(dir_url(source), dir_url(target));
    assert(source.take(c as int) =~= target.take(c as int));
    assert forall|i: int| 0 <= i < rest.len() implies crate::link_index::clean_segment(#[trigger] rest[i]) by {
        assert(rest[i] == target[i + c]);
    }
    assert(ups =~= crate::link_transform::parent_steps((source.len() - c) as nat));
    crate::link_transform::lemma_parent_steps_drop(source, (source.len() - c) as nat);
    crate::link_transform::lemma_apply_clamped_concat(source, ups, rest);
    lemma_apply_plain(source.take(c as int), rest);
    assert(source.take(c as int) + rest =~= target);
    assert(link_base_dir(dir_url(source), true) == source);
    if parts.len() == 0 {
        assert(rel == seq!['.']);
        assert(source.len() == c && target.len() == c);
        assert(source =~= target);
        assert(!starts_with(rel, seq!['/'])) by {
            assert(rel.take(1)[0] == '.');
        }
        assert(!starts_with(rel, seq!['#'])) by {
            assert(rel.take(1)[0] == '.');
        }
        assert(seq!['.'].drop_last() =~= Seq::<char>::empty());
        assert(seg_scan(Seq::<char>::empty()) == (Seq::<Seq<char>>::empty(), Seq::<char>::empty()));
        assert(seg_scan(seq!['.']) == (Seq::<Seq<char>>::empty(), Seq::<char>::empty().push('.')));
        assert(Seq::<char>::empty().push('.') =~= seq!['.']);
        assert(segments(rel) =~= seq![seq!['.']]);
        assert(apply_clamped(source, seq![seq!['.']]) == source) by {
            let one = seq![seq!['.']];
            assert(one.drop_last() =~= Seq::<Seq<char>>::empty());
            assert(one.last() == seq!['.']);
            assert(apply_clamped(source, Seq::<Seq<char>>::empty()) == source);
            assert(crate::link_index::step_clamped(source, seq!['.']) == source);
        }
    } else {
        assert(rel == join_slash(parts));
        assert forall|i: int| 0 <= i < parts.len() implies plain_part(#[trigger] parts[i]) by {
            if i < ups.len() {
                assert(parts[i] == seq!['.', '.']);
                assert(!seq!['.', '.'].contains('/')) by {
                    if seq!['.', '.'].contains('/') {
                        let j = choose|j: int| 0 <= j < 2 && seq!['.', '.'][j] == '/';
                    }
                }
            } else {
                assert(parts[i] == rest[i - ups.len()]);
            }
        }
        lemma_join_split(parts);
        assert(parts.drop_last().push(parts.last()) =~= parts);
        assert(segments(rel) == parts);
        assert(rel[0] == parts[0][0]);
        assert(parts[0][0] != '/' && parts[0][0] != '#') by {
            if ups.len() > 0 {
                assert(parts[0] == seq!['.', '.']);
            } else {
                assert(parts[0] == rest[0]);
                assert(crate::link_index::clean_segment(rest[0]));
                assert(!rest[0].contains('/') && !rest[0].contains('#'));
            }
        }
        assert(!starts_with(rel, seq!['/'])) by {
            assert(rel.take(1)[0] == rel[0]);
        }
        assert(!starts_with(rel, seq!['#'])) by {
            assert(rel.take(1)[0] == rel[0]);
        }
    }
}

/// The text a wiki link to `target_url_path` shows without display text:
/// the target's last URL segment.
pub open spec fn default_link_text(target_url_path: Seq<char>) -> Seq<char> {
    let segs = trim_start(trim_end(target_url_path, '/'), '/');
    match rfind_char(segs, '/') {
        Some(k) => segs.skip(k + 1),
        None => segs,
    }
}

/// The last URL segment of the target, shown for a wiki link to it without
/// display text.
pub fn default_link_text_of(target_url_path: &str) -> (r: String)
    ensures
        r@ == default_link_text(target_url_path@),
{
    let v = chars_of(target_url_path);
    let n = trim_end_len(&v, '/');
    let t = copy_range(&v, 0, n);
    assert(t@ =~= trim_end(target_url_path@, '/'));
    let a = trim_start_pos(&t, '/');
    let segs = copy_range(&t, a, t.len());
    assert(segs@ =~= trim_start(t@, '/'));
    proof {
        lemma_rfind_bounds(segs@, '/');
    }
    match rfind_char_exec(&segs, '/') {
        Some(k) => {
            let last = copy_range(&segs, k + 1, segs.len());
            assert(last@ =~= segs@.skip(k + 1));
            string_of(&last)
        },
        None => string_of(&segs),
    }
}

/// A character that cannot stand in a bare wiki name.
pub open spec fn is_wiki_syntax(c: char) -> bool {
    c == '/' || c == '[' || c == ']' || c == '|' || c == '#'
}

/// The bare wiki names among `candidates`: each trimmed, kept when
/// non-empty and free of wiki-link syntax, and only the first of those that
/// are equal ignoring case.
pub open spec fn wiki_names(candidates: Seq<Seq<char>>) -> Seq<Seq<char>>
    decreases candidates.len(),
{
    if candidates.len() == 0 {
        Seq::empty()
    } else {
        let rest = wiki_names(candidates.drop_last());
        let n = trim_ws(candidates.last());
        if n.len() > 0 && !(exists|i: int| 0 <= i < n.len() && #[trigger] is_wiki_syntax(n[i])) && !(exists|k: int|
            0 <= k < rest.len() && #[trigger] lowercase(rest[k]) == lowercase(n)) {
            rest.push(n)
        } else {
            rest
        }
    }
}

/// The candidates for a target's bare wiki names: its file stem, its title
/// and its aliases.
pub open spec fn name_candidates(stem: Seq<char>, title: Option<Seq<char>>, aliases: Seq<Seq<char>>) -> Seq<Seq<char>> {
    seq![stem] + match title {
        Some(t) => seq![t],
        None => Seq::empty(),
    } + aliases
}

fn wiki_syntax_free(n: &Vec<char>) -> (r: bool)
    ensures
        r == !(exists|i: int| 0 <= i < n@.len() && #[trigger] is_wiki_syntax(n@[i])),
{
    let mut i: usize = 0;
    while i < n.len()
        invariant
            i <= n@.len(),
            forall|j: int| 0 <= j < i ==> !#[trigger] is_wiki_syntax(n@[j]),
        decreases n@.len() - i,
    {
        let c = n[i];
        if c == '/' || c == '[' || c == ']' || c == '|' || c == '#' {
            assert(is_wiki_syntax(n@[i as int]));
            return false;
        }
        i += 1;
    }
    true
}

fn lowercase_seen(lowers: &Vec<String>, x: &str) -> (r: bool)
    ensures
        r == exists|k: int| 0 <= k < lowers@.len() && #[trigger] lowers@[k]@ == x@,
{
    let xc = chars_of(x);
    let mut k: usize = 0;
    while k < lowers.len()
        invariant
            xc@ == x@,
            k <= lowers@.len(),
            forall|j: int| 0 <= j < k ==> #[trigger] lowers@[j]@ != x@,
        decreases lowers@.len() - k,
    {
        let c = chars_of(lowers[k].as_str());
        if crate::text::chars_eq(&c, &xc) {
            return true;
        }
        k += 1;
    }
    false
}

/// The bare `[[Name]]` forms that resolve to a target: its file stem, its
/// frontmatter title and aliases, trimmed; names carrying wiki-link syntax
/// (`/`, `[`, `]`, `|`, `#`) and blank ones are dropped, as are repeats
/// ignoring case.
pub fn wikilink_names(stem: &str, title: Option<&str>, aliases: &[String]) -> (r: Vec<String>)
    ensures
        views_of(r@) == wiki_names(
            name_candidates(
                stem@,
                match title {
                    Some(t) => Some(t@),
                    None => None,
                },
                views_of(aliases@),
            ),
        ),
{
    let mut cands: Vec<String> = Vec::new();
    cands.push(stem.to_owned());
    match title {
        Some(t) => cands.push(t.to_owned()),
        None => {},
    }
    let ghost c0 = views_of(cands@);
    let all = strings_concat(&cands, aliases);
    assert(views_of(all@) =~= name_candidates(
        stem@,
        match title {
            Some(t) => Some(t@),
            None => None,
        },
        views_of(aliases@),
    ));
    let ghost av = views_of(all@);
    let mut out: Vec<String> = Vec::new();
    let mut lowers: Vec<String> = Vec::new();
    let mut i: usize = 0;
    while i < all.len()
        invariant
            av == views_of(all@),
            i <= all@.len(),
            views_of(out@) == wiki_names(av.take(i as int)),
            lowers@.len() == out@.len(),
            forall|k: int| 0 <= k < lowers@.len() ==> #[trigger] lowers@[k]@ == lowercase(out@[k]@),
        decreases all@.len() - i,
    {
        assert(av.take(i + 1).drop_last() =~= av.take(i as int));
        assert(av[i as int] == all@[i as int]@);
        let c = chars_of(all[i].as_str());
        let n = crate::page_errors::trim_chars(&c);
        if n.len() > 0 && wiki_syntax_free(&n) {
            let ns = string_of(&n);
            let low = to_lowercase(ns.as_str());
            let ghost rest = views_of(out@);
            let seen = lowercase_seen(&lowers, low.as_str());
            assert(seen == exists|k: int| 0 <= k < rest.len() && #[trigger] lowercase(rest[k]) == lowercase(n@)) by {
                if seen {
                    let k = choose|k: int| 0 <= k < lowers@.len() && #[trigger] lowers@[k]@ == low@;
                    assert(lowercase(rest[k]) == lowercase(n@));
                }
                if exists|k: int| 0 <= k < rest.len() && #[trigger] lowercase(rest[k]) == lowercase(n@) {
                    let k = choose|k: int| 0 <= k < rest.len() && #[trigger] lowercase(rest[k]) == lowercase(n@);
                    assert(lowers@[k]@ == low@);
                }
            }
            if !seen {
                let ghost before = out@;
                out.push(ns);
                lowers.push(low);
                assert(views_of(out@) =~= views_of(before).push(n@));
            }
        }
        i += 1;
    }
    assert(av.take(i as int) =~= av);
    out
}

/// The key of a page's aliases.
pub open spec fn aliases_key() -> Seq<char> {
    seq!['a', 'l', 'i', 'a', 's', 'e', 's']
}

/// A page's title from its metadata, when it is a string.
pub open spec fn meta_title(m: Map<Seq<char>, MetaView>) -> Option<Seq<char>> {
    if m.dom().contains(title_key()) {
        match m[title_key()] {
            MetaView::Text(t) => Some(t),
            _ => None,
        }
    } else {
        None
    }
}

/// A page's aliases from its metadata, when they are a list.
pub open spec fn meta_aliases(m: Map<Seq<char>, MetaView>) -> Seq<Seq<char>> {
    if m.dom().contains(aliases_key()) {
        match m[aliases_key()] {
            MetaView::List(l) => l,
            _ => Seq::empty(),
        }
    } else {
        Seq::empty()
    }
}

/// The bare `[[Name]]` forms that resolve to a target file with stem `stem`
/// and frontmatter `metadata`: the stem, the `title` (when a string) and
/// the `aliases` (when a list), as [`wikilink_names`] filters them.
pub fn wikilink_names_for_target(stem: &str, metadata: &Metadata) -> (r: Vec<String>)
    ensures
        views_of(r@) == wiki_names(name_candidates(stem@, meta_title(metadata@), meta_aliases(metadata@))),
{
    proof {
        reveal_strlit("title");
        reveal_strlit("aliases");
        assert("title"@ =~= title_key());
        assert("aliases"@ =~= aliases_key());
    }
    let title: Option<&str> = match metadata.get("title") {
        Some(MetaValue::Text(t)) => Some(t.as_str()),
        _ => None,
    };
    let no_aliases: Vec<String> = Vec::new();
    let aliases: &Vec<String> = match metadata.get("aliases") {
        Some(MetaValue::List(l)) => l,
        _ => &no_aliases,
    };
    assert(views_of(no_aliases@) =~= Seq::<Seq<char>>::empty());
    wikilink_names(stem, title, aliases)
}

/// `/` followed by each path component and a `/`.
pub open spec fn components_url(components: Seq<Seq<char>>) -> Seq<char>
    decreases components.len(),
{
    if components.len() == 0 {
        seq!['/']
    } else {
        components_url(components.drop_last()) + components.last() + seq!['/']
    }
}

/// `url` with the first markdown extension (in configuration order) that
/// ends it, as `.ext/` compared without ASCII case, replaced by `/`.
pub open spec fn strip_ext_url(url: Seq<char>, exts: Seq<Seq<char>>) -> Seq<char>
    decreases exts.len(),
{
    if exts.len() == 0 {
        url
    } else {
        let suffix = seq!['.'] + exts[0] + seq!['/'];
        if suffix.len() <= url.len() && ascii_lowercase(url.skip(url.len() - suffix.len())) == ascii_lowercase(
            suffix,
        ) {
            url.take(url.len() - suffix.len()).push('/')
        } else {
            strip_ext_url(url, exts.drop_first())
        }
    }
}

/// The positional URL path of a markdown file from its path components
/// (relative to the repository root): every component becomes a URL
/// segment and the markdown extension becomes a trailing slash.
pub fn url_path_of(components: &[String], markdown_extensions: &[String]) -> (r: String)
    ensures
        r@ == strip_ext_url(components_url(views_of(components@)), views_of(markdown_extensions@)),
{
    let ghost cv = views_of(components@);
    let mut url: Vec<char> = vec!['/'];
    let mut i: usize = 0;
    while i < components.len()
        invariant
            cv == views_of(components@),
            i <= components@.len(),
            url@ == components_url(cv.take(i as int)),
        decreases components@.len() - i,
    {
        assert(cv.take(i + 1).drop_last() =~= cv.take(i as int));
        assert(cv[i as int] == components@[i as int]@);
        let c = chars_of(components[i].as_str());
        push_all(&mut url, &c);
        url.push('/');
        i += 1;
    }
    assert(cv.take(i as int) =~= cv);
    let ghost base = url@;
    let ghost ev = views_of(markdown_extensions@);
    let lower = crate::media::ascii_lowercase_exec(&url);
    let mut j: usize = 0;
    assert(ev.skip(0) =~= ev);
    while j < markdown_extensions.len()
        invariant
            ev == views_of(markdown_extensions@),
            base == url@,
            base == components_url(views_of(components@)),
            lower@ == ascii_lowercase(url@),
            j <= markdown_extensions@.len(),
            strip_ext_url(base, ev) == strip_ext_url(base, ev.skip(j as int)),
        decreases markdown_extensions@.len() - j,
    {
        let mut suffix: Vec<char> = vec!['.'];
        let e = chars_of(markdown_extensions[j].as_str());
        push_all(&mut suffix, &e);
        suffix.push('/');
        assert(ev.skip(j as int)[0] == markdown_extensions@[j as int]@);
        assert(suffix@ =~= seq!['.'] + ev.skip(j as int)[0] + seq!['/']);
        let sl = crate::media::ascii_lowercase_exec(&suffix);
        if suffix.len() <= url.len() {
            let cut = url.len() - suffix.len();
            let tail = copy_range(&lower, cut, lower.len());
            assert(tail@ =~= ascii_lowercase(url@.skip(cut as int)));
            if crate::text::chars_eq(&tail, &sl) {
                let mut r = copy_range(&url, 0, cut);
                r.push('/');
                assert(r@ =~= url@.take(cut as int).push('/'));
                assert(ev.skip(j as int).len() > 0);
                assert(strip_ext_url(base, ev.skip(j as int)) == url@.take(cut as int).push('/'));
                return string_of(&r);
            }
        }
        assert(ev.skip(j as int).drop_first() =~= ev.skip(j + 1));
        j += 1;
    }
    assert(ev.skip(j as int) =~= Seq::<Seq<char>>::empty());
    string_of(&url)
}

/// What [`page_and_folder_urls`] returns: the URL the file with path
/// components `components` is served at (an index file's URL is its
/// folder's) and the folder its relative links resolve against.
pub open spec fn page_and_folder(
    components: Seq<Seq<char>>,
    markdown_extensions: Seq<Seq<char>>,
    index_file: Option<Seq<char>>,
) -> (Seq<char>, Seq<char>) {
    let positional = strip_ext_url(components_url(components), markdown_extensions);
    let folder = folder_url_path(positional);
    let page = match index_file {
        Some(f) => if components.len() > 0 && components.last() == f {
            folder
        } else {
            positional
        },
        None => positional,
    };
    (page, folder)
}

/// The canonical URL of the markdown file with path components
/// `components` below the repository root, and the folder URL its own
/// relative links resolve against. With an index file name, an index page
/// is served at its folder's URL; the folder is always taken from the
/// positional URL, so it stays the index page's own folder.
pub fn page_and_folder_urls(components: &[String], markdown_extensions: &[String], index_file: Option<&str>) -> (r: (
    String,
    String,
))
    ensures
        (r.0@, r.1@) == page_and_folder(
            views_of(components@),
            views_of(markdown_extensions@),
            match index_file {
                Some(f) => Some(f@),
                None => None,
            },
        ),
{
    let positional = url_path_of(components, markdown_extensions);
    let folder = get_folder_url_path(positional.as_str());
    let is_index = match index_file {
        Some(f) => {
            if components.len() > 0 {
                let last = chars_of(components[components.len() - 1].as_str());
                let fc = chars_of(f);
                assert(views_of(components@).last() == components@[components@.len() - 1]@);
                crate::text::chars_eq(&last, &fc)
            } else {
                false
            }
        },
        None => false,
    };
    if is_index {
        let page = folder.clone();
        (page, folder)
    } else {
        (positional, folder)
    }
}

/// Lowercasing keeps `.` and `/` and makes nothing else one.
proof fn lemma_lower_keeps_marks(c: char)
    ensures
        (crate::media::ascii_lower(c) == '.') == (c == '.'),
        (crate::media::ascii_lower(c) == '/') == (c == '/'),
{
    if 'A' <= c && c <= 'Z' {
        assert((c as u8) + 32 >= 97);
        assert(((c as u8) + 32) as char as u32 >= 97);
    }
}

/// The URL `u` ends with the suffix `.e/`, compared without ASCII case.
pub open spec fn ends_with_ext_url(u: Seq<char>, e: Seq<char>) -> bool {
    (seq!['.'] + e + seq!['/']).len() <= u.len() && ascii_lowercase(
        u.skip(u.len() - (seq!['.'] + e + seq!['/']).len()),
    ) == ascii_lowercase(seq!['.'] + e + seq!['/'])
}

/// A URL `p.x/` with a dot-free `x` ends, without ASCII case, with `.e/`
/// for a dot-free `e` only when `e` is as long as `x`.
proof fn lemma_ext_url_len(p: Seq<char>, x: Seq<char>, e: Seq<char>)
    requires
        forall|j: int| 0 <= j < x.len() ==> #[trigger] x[j] != '.',
        forall|j: int| 0 <= j < e.len() ==> #[trigger] e[j] != '.',
        ends_with_ext_url(p + seq!['.'] + x + seq!['/'], e),
    ensures
        e.len() == x.len(),
{
    let u = p + seq!['.'] + x + seq!['/'];
    let n = u.len() as int;
    let sfx = seq!['.'] + e + seq!['/'];
    let t = u.skip(n - sfx.len());
    assert(ascii_lowercase(t) == ascii_lowercase(sfx));
    assert(u[n - x.len() - 2] == '.');
    if e.len() < x.len() {
        // `.` of the suffix falls inside `x`.
        let pos = n - e.len() - 2;
        assert(t[0] == u[pos]);
        assert(ascii_lowercase(t)[0] == ascii_lowercase(sfx)[0]);
        lemma_lower_keeps_marks(u[pos]);
        assert(u[pos] == x[pos - (n - x.len() - 1)]);
    } else if e.len() > x.len() {
        // `.` before `x` falls inside `e`.
        let pos = n - x.len() - 2;
        let off = pos - (n - sfx.len());
        assert(t[off] == u[pos]);
        assert(ascii_lowercase(t)[off] == ascii_lowercase(sfx)[off]);
        assert(sfx[off] == e[off - 1]);
        lemma_lower_keeps_marks(u[pos]);
        lemma_lower_keeps_marks(e[off - 1]);
    }
}

proof fn lemma_strip_ext_url_at(u: Seq<char>, exts: Seq<Seq<char>>, len: int)
    requires
        exists|k: int| 0 <= k < exts.len() && ends_with_ext_url(u, #[trigger] exts[k]),
        forall|k: int| 0 <= k < exts.len() && ends_with_ext_url(u, #[trigger] exts[k]) ==> exts[k].len() == len,
    ensures
        strip_ext_url(u, exts) == u.take(u.len() - len - 2).push('/'),
    decreases exts.len(),
{
    if !ends_with_ext_url(u, exts[0]) {
        let k = choose|k: int| 0 <= k < exts.len() && ends_with_ext_url(u, #[trigger] exts[k]);
        let rest = exts.drop_first();
        assert(ends_with_ext_url(u, rest[k - 1]));
        assert forall|j: int| 0 <= j < rest.len() && ends_with_ext_url(u, #[trigger] rest[j]) implies rest[j].len()
            == len by {
            assert(rest[j] == exts[j + 1]);
        }
        lemma_strip_ext_url_at(u, rest, len);
    }
}

/// A markdown file is served at a folder URL: the file `name.ext` below
/// the folders `cs`, for an extension `ext` that is configured (compared
/// without ASCII case; the configured extensions are bare names without a
/// dot), has the URL of a folder `name` below `cs`.
pub proof fn law_markdown_files_are_served_at_folders(
    cs: Seq<Seq<char>>,
    name: Seq<char>,
    ext: Seq<char>,
    exts: Seq<Seq<char>>,
)
    requires
        forall|j: int| 0 <= j < ext.len() ==> #[trigger] ext[j] != '.',
        exists|k: int| 0 <= k < exts.len() && ascii_lowercase(#[trigger] exts[k]) == ascii_lowercase(ext),
        forall|k: int, j: int| 0 <= k < exts.len() && 0 <= j < exts[k].len() ==> #[trigger] exts[k][j] != '.',
    ensures
        strip_ext_url(components_url(cs.push(name + seq!['.'] + ext)), exts) == components_url(cs.push(name)),
{
    let file = name + seq!['.'] + ext;
    assert(cs.push(file).drop_last() =~= cs);
    assert(cs.push(name).drop_last() =~= cs);
    let p = components_url(cs) + name;
    let u = components_url(cs.push(file));
    assert(u =~= p + seq!['.'] + ext + seq!['/']);
    let k0 = choose|k: int| 0 <= k < exts.len() && ascii_lowercase(#[trigger] exts[k]) == ascii_lowercase(ext);
    let e0 = exts[k0];
    // The configured extension matches the URL's suffix.
    let sfx0 = seq!['.'] + e0 + seq!['/'];
    assert(ascii_lowercase(e0).len() == ascii_lowercase(ext).len());
    assert(u.skip(u.len() - sfx0.len()) =~= seq!['.'] + ext + seq!['/']);
    assert(ascii_lowercase(seq!['.'] + ext + seq!['/']) =~= ascii_lowercase(sfx0)) by {
        assert forall|j: int| 0 <= j < sfx0.len() implies ascii_lowercase(seq!['.'] + ext + seq!['/'])[j]
            == ascii_lowercase(sfx0)[j] by {
            if 1 <= j < sfx0.len() - 1 {
                assert(ascii_lowercase(e0)[j - 1] == ascii_lowercase(ext)[j - 1]);
            }
        }
    }
    assert(ends_with_ext_url(u, exts[k0]));
    assert forall|k: int| 0 <= k < exts.len() && ends_with_ext_url(u, #[trigger] exts[k]) implies exts[k].len()
        == ext.len() by {
        assert forall|j: int| 0 <= j < exts[k].len() implies #[trigger] exts[k][j] != '.' by {}
        lemma_ext_url_len(p, ext, exts[k]);
    }
    lemma_strip_ext_url_at(u, exts, ext.len() as int);
    assert(u.take(u.len() - ext.len() - 2).push('/') =~= components_url(cs.push(name)));
}

/// A regular page's relative links resolve as its folder's index page's
/// do: served at the folder URL `dir_url(b + [p])`, a page that is no
/// index file gives every link the destination the index page at
/// `dir_url(b)` gives it, also when the link climbs above the root.
pub proof fn law_regular_pages_resolve_from_their_folder(b: Seq<Seq<char>>, p: Seq<char>, rel: Seq<char>)
    requires
        forall|i: int| 0 <= i < b.len() ==> crate::link_index::clean_segment(#[trigger] b[i]),
        crate::link_index::clean_segment(p),
    ensures
        resolved_url(dir_url(b.push(p)), rel, false) == resolved_url(dir_url(b), rel, true),
        crate::link_index::resolved_url_checked(dir_url(b.push(p)), rel, false)
            == crate::link_index::resolved_url_checked(dir_url(b), rel, true),
{
    assert forall|i: int| 0 <= i < b.push(p).len() implies crate::link_index::clean_segment(#[trigger] b.push(p)[i]) by {
        if i < b.len() {
            assert(b.push(p)[i] == b[i]);
        }
    }
    lemma_path_parts_dir_url(b.push(p));
    lemma_path_parts_dir_url(b);
    assert(b.push(p).drop_last() =~= b);
    assert(link_base_dir(dir_url(b.push(p)), false) == link_base_dir(dir_url(b), true));
}

} // verus!
