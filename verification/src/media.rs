//! Media embedding detection and HTML generation for the `![caption](url)`
//! syntax when the URL points to a video, audio file, PDF or YouTube video.

use vstd::prelude::*;
use crate::text::{chars_of, copy_range, push_all, starts_with, string_of};

verus! {

// ---------------------------------------------------------------------------
// URL grammar
// ---------------------------------------------------------------------------

/// A character of a YouTube video id (`[a-zA-Z0-9_-]`).
pub open spec fn is_id_char(c: char) -> bool {
    ('a' <= c && c <= 'z') || ('A' <= c && c <= 'Z') || ('0' <= c && c <= '9') || c == '_' || c
        == '-'
}

/// An ASCII letter or digit.
pub open spec fn is_alnum(c: char) -> bool {
    ('a' <= c && c <= 'z') || ('A' <= c && c <= 'Z') || ('0' <= c && c <= '9')
}

/// The eleven id characters starting at `k`, if there are eleven.
pub open spec fn id_at(s: Seq<char>, k: int) -> Option<Seq<char>> {
    if 0 <= k && k + 11 <= s.len() && (forall|j: int| k <= j < k + 11 ==> is_id_char(#[trigger] s[j])) {
        Some(s.subrange(k, k + 11))
    } else {
        None
    }
}

/// `p` occurs in `s` at `i`.
pub open spec fn occurs_at(s: Seq<char>, i: int, p: Seq<char>) -> bool {
    0 <= i && i + p.len() <= s.len() && s.subrange(i, i + p.len()) == p
}

/// The last `j` in `[from, hi)` with `v=` at `j` followed by an id, scanning
/// down from `hi`, provided no newline lies between `from` and `j` (the
/// greedy `.*` of `watch\?.*v=`).
pub open spec fn watch_id_from(s: Seq<char>, from: int, hi: int) -> Option<Seq<char>>
    decreases hi - from,
{
    if hi <= from {
        None
    } else {
        let j = hi - 1;
        if occurs_at(s, j, seq!['v', '=']) && id_at(s, j + 2) is Some && no_newline(s, from, j) {
            id_at(s, j + 2)
        } else {
            watch_id_from(s, from, j)
        }
    }
}

/// No `\n` in `s[from..to]`.
pub open spec fn no_newline(s: Seq<char>, from: int, to: int) -> bool {
    forall|j: int| from <= j < to ==> #[trigger] s[j] != '\n'
}

/// `youtube.com/watch?`.
pub open spec fn watch_prefix() -> Seq<char> {
    seq!['y', 'o', 'u', 't', 'u', 'b', 'e', '.', 'c', 'o', 'm', '/', 'w', 'a', 't', 'c', 'h', '?']
}

/// `youtu.be/`.
pub open spec fn short_prefix() -> Seq<char> {
    seq!['y', 'o', 'u', 't', 'u', '.', 'b', 'e', '/']
}

/// `youtube.com/embed/`.
pub open spec fn embed_prefix() -> Seq<char> {
    seq!['y', 'o', 'u', 't', 'u', 'b', 'e', '.', 'c', 'o', 'm', '/', 'e', 'm', 'b', 'e', 'd', '/']
}

/// `youtube.com/v/`.
pub open spec fn v_prefix() -> Seq<char> {
    seq!['y', 'o', 'u', 't', 'u', 'b', 'e', '.', 'c', 'o', 'm', '/', 'v', '/']
}

/// The video id of a YouTube URL form starting at `i`, trying
/// `youtube.com/watch?…v=`, `youtu.be/`, `youtube.com/embed/` and
/// `youtube.com/v/` in that order.
pub open spec fn youtube_at(s: Seq<char>, i: int) -> Option<Seq<char>> {
    if occurs_at(s, i, watch_prefix()) && watch_id_from(s, i + 18, s.len() as int) is Some {
        watch_id_from(s, i + 18, s.len() as int)
    } else if occurs_at(s, i, short_prefix()) && id_at(s, i + 9) is Some {
        id_at(s, i + 9)
    } else if occurs_at(s, i, embed_prefix()) && id_at(s, i + 18) is Some {
        id_at(s, i + 18)
    } else if occurs_at(s, i, v_prefix()) && id_at(s, i + 14) is Some {
        id_at(s, i + 14)
    } else {
        None
    }
}

/// The video id of the leftmost YouTube URL form at or after `i`.
pub open spec fn youtube_from(s: Seq<char>, i: int) -> Option<Seq<char>>
    decreases s.len() - i,
{
    if i < 0 || i >= s.len() {
        None
    } else if youtube_at(s, i) is Some {
        youtube_at(s, i)
    } else {
        youtube_from(s, i + 1)
    }
}

/// The YouTube video id in `url`, if any.
pub open spec fn youtube_id(url: Seq<char>) -> Option<Seq<char>> {
    youtube_from(url, 0)
}

/// The end of the run of ASCII alphanumerics starting at `i`.
pub open spec fn alnum_end(s: Seq<char>, i: int) -> int
    decreases s.len() - i,
{
    if i < 0 || i >= s.len() || !is_alnum(s[i]) {
        i
    } else {
        alnum_end(s, i + 1)
    }
}

/// The extension matched at `i`: a `.`, one or more alphanumerics, then
/// either the end of the URL or a `?`/`#` and a newline-free tail.
pub open spec fn extension_at(s: Seq<char>, i: int) -> Option<Seq<char>> {
    if 0 <= i < s.len() && s[i] == '.' {
        let e = alnum_end(s, i + 1);
        if e > i + 1 && (e == s.len() || ((s[e] == '?' || s[e] == '#') && no_newline(
            s,
            e + 1,
            s.len() as int,
        ))) {
            Some(s.subrange(i + 1, e))
        } else {
            None
        }
    } else {
        None
    }
}

/// The extension of the leftmost match at or after `i`.
pub open spec fn extension_from(s: Seq<char>, i: int) -> Option<Seq<char>>
    decreases s.len() - i,
{
    if i < 0 || i >= s.len() {
        None
    } else if extension_at(s, i) is Some {
        extension_at(s, i)
    } else {
        extension_from(s, i + 1)
    }
}

/// The file extension of `url` (query and fragment ignored), if any.
pub open spec fn url_extension(url: Seq<char>) -> Option<Seq<char>> {
    extension_from(url, 0)
}

/// ASCII lowercase of one character.
pub open spec fn ascii_lower(c: char) -> char {
    if 'A' <= c && c <= 'Z' {
        ((c as u8) + 32) as char
    } else {
        c
    }
}

/// ASCII lowercase of a sequence.
pub open spec fn ascii_lowercase(s: Seq<char>) -> Seq<char> {
    s.map_values(|c: char| ascii_lower(c))
}

// ---------------------------------------------------------------------------
// Grammar implementation
// ---------------------------------------------------------------------------

fn is_id_char_exec(c: char) -> (r: bool)
    ensures
        r == is_id_char(c),
{
    ('a' <= c && c <= 'z') || ('A' <= c && c <= 'Z') || ('0' <= c && c <= '9') || c == '_' || c
        == '-'
}

fn is_alnum_exec(c: char) -> (r: bool)
    ensures
        r == is_alnum(c),
{
    ('a' <= c && c <= 'z') || ('A' <= c && c <= 'Z') || ('0' <= c && c <= '9')
}

fn occurs_at_exec(s: &[char], i: usize, p: &[char]) -> (r: bool)
    ensures
        r == occurs_at(s@, i as int, p@),
{
    let slen = s.len();
    if i > slen || p.len() > slen - i {
        return false;
    }
    let mut k: usize = 0;
    while k < p.len()
        invariant
            slen == s@.len(),
            i + p@.len() <= s@.len(),
            k <= p@.len(),
            forall|j: int| 0 <= j < k ==> s@[i + j] == p@[j],
        decreases p@.len() - k,
    {
        if s[i + k] != p[k] {
            assert(s@.subrange(i as int, i + p@.len())[k as int] != p@[k as int]);
            return false;
        }
        k += 1;
    }
    assert(s@.subrange(i as int, i + p@.len()) =~= p@);
    true
}

fn id_at_exec(s: &[char], k: usize) -> (r: Option<Vec<char>>)
    ensures
        match r {
            Some(v) => id_at(s@, k as int) == Some(v@),
            None => id_at(s@, k as int) is None,
        },
{
    let slen = s.len();
    if k > slen || slen - k < 11 {
        return None;
    }
    let mut j = k;
    while j < k + 11
        invariant
            slen == s@.len(),
            k + 11 <= s@.len(),
            k <= j <= k + 11,
            forall|m: int| k <= m < j ==> is_id_char(#[trigger] s@[m]),
        decreases k + 11 - j,
    {
        if !is_id_char_exec(s[j]) {
            return None;
        }
        j += 1;
    }
    Some(copy_range(s, k, k + 11))
}

fn watch_id_exec(s: &[char], from: usize) -> (r: Option<Vec<char>>)
    requires
        from <= s@.len(),
    ensures
        match r {
            Some(v) => watch_id_from(s@, from as int, s@.len() as int) == Some(v@),
            None => watch_id_from(s@, from as int, s@.len() as int) is None,
        },
{
    // The first newline at or after `from` bounds where `v=` may start.
    let mut nl = from;
    while nl < s.len() && s[nl] != '\n'
        invariant
            from <= nl <= s@.len(),
            no_newline(s@, from as int, nl as int),
        decreases s@.len() - nl,
    {
        nl += 1;
    }
    let mut hi = s.len();
    while hi > from
        invariant
            from <= hi <= s@.len(),
            from <= nl,
            no_newline(s@, from as int, nl as int),
            nl == s@.len() || s@[nl as int] == '\n',
            nl <= s@.len(),
            watch_id_from(s@, from as int, s@.len() as int) == watch_id_from(s@, from as int, hi as int),
        decreases hi - from,
    {
        let j = hi - 1;
        let ok_nl = j <= nl;
        assert(ok_nl == no_newline(s@, from as int, j as int)) by {
            if !ok_nl {
                assert(s@[nl as int] == '\n');
                assert(from <= nl < j);
            }
        }
        if ok_nl && occurs_at_exec(s, j, &['v', '=']) {
            if j + 2 <= s.len() {
                match id_at_exec(s, j + 2) {
                    Some(id) => {
                        return Some(id);
                    },
                    None => {},
                }
            }
        }
        hi = j;
    }
    None
}

fn youtube_at_exec(s: &[char], i: usize) -> (r: Option<Vec<char>>)
    requires
        i < s@.len(),
    ensures
        match r {
            Some(v) => youtube_at(s@, i as int) == Some(v@),
            None => youtube_at(s@, i as int) is None,
        },
{
    let slen = s.len();
    let watch: [char; 18] = [
        'y', 'o', 'u', 't', 'u', 'b', 'e', '.', 'c', 'o', 'm', '/', 'w', 'a', 't', 'c', 'h', '?',
    ];
    assert(watch@ =~= watch_prefix());
    if occurs_at_exec(s, i, &watch) {
        match watch_id_exec(s, i + 18) {
            Some(id) => {
                return Some(id);
            },
            None => {},
        }
    }
    let short: [char; 9] = ['y', 'o', 'u', 't', 'u', '.', 'b', 'e', '/'];
    assert(short@ =~= short_prefix());
    if occurs_at_exec(s, i, &short) {
        match id_at_exec(s, i + 9) {
            Some(id) => {
                return Some(id);
            },
            None => {},
        }
    }
    let embed: [char; 18] = [
        'y', 'o', 'u', 't', 'u', 'b', 'e', '.', 'c', 'o', 'm', '/', 'e', 'm', 'b', 'e', 'd', '/',
    ];
    assert(embed@ =~= embed_prefix());
    if occurs_at_exec(s, i, &embed) {
        match id_at_exec(s, i + 18) {
            Some(id) => {
                return Some(id);
            },
            None => {},
        }
    }
    let v: [char; 14] = ['y', 'o', 'u', 't', 'u', 'b', 'e', '.', 'c', 'o', 'm', '/', 'v', '/'];
    assert(v@ =~= v_prefix());
    if occurs_at_exec(s, i, &v) {
        match id_at_exec(s, i + 14) {
            Some(id) => {
                return Some(id);
            },
            None => {},
        }
    }
    None
}

fn youtube_id_exec(s: &[char]) -> (r: Option<Vec<char>>)
    ensures
        match r {
            Some(v) => youtube_id(s@) == Some(v@),
            None => youtube_id(s@) is None,
        },
{
    let mut i: usize = 0;
    while i < s.len()
        invariant
            i <= s@.len(),
            youtube_id(s@) == youtube_from(s@, i as int),
        decreases s@.len() - i,
    {
        match youtube_at_exec(s, i) {
            Some(id) => {
                return Some(id);
            },
            None => {},
        }
        i += 1;
    }
    None
}

fn extension_at_exec(s: &[char], i: usize) -> (r: Option<Vec<char>>)
    requires
        i < s@.len(),
    ensures
        match r {
            Some(v) => extension_at(s@, i as int) == Some(v@),
            None => extension_at(s@, i as int) is None,
        },
{
    if s[i] != '.' {
        return None;
    }
    let mut e = i + 1;
    while e < s.len() && is_alnum_exec(s[e])
        invariant
            i + 1 <= e <= s@.len(),
            alnum_end(s@, i + 1) == alnum_end(s@, e as int),
        decreases s@.len() - e,
    {
        e += 1;
    }
    if e == i + 1 {
        return None;
    }
    if e == s.len() {
        return Some(copy_range(s, i + 1, e));
    }
    if s[e] != '?' && s[e] != '#' {
        return None;
    }
    let mut k = e + 1;
    while k < s.len() && s[k] != '\n'
        invariant
            e + 1 <= k <= s@.len(),
            no_newline(s@, e + 1, k as int),
        decreases s@.len() - k,
    {
        k += 1;
    }
    if k < s.len() {
        return None;
    }
    Some(copy_range(s, i + 1, e))
}

fn extension_exec(s: &[char]) -> (r: Option<Vec<char>>)
    ensures
        match r {
            Some(v) => url_extension(s@) == Some(v@),
            None => url_extension(s@) is None,
        },
{
    let mut i: usize = 0;
    while i < s.len()
        invariant
            i <= s@.len(),
            url_extension(s@) == extension_from(s@, i as int),
        decreases s@.len() - i,
    {
        match extension_at_exec(s, i) {
            Some(x) => {
                return Some(x);
            },
            None => {},
        }
        i += 1;
    }
    None
}

/// `s` with ASCII letters in lower case.
pub(crate) fn ascii_lowercase_exec(s: &[char]) -> (r: Vec<char>)
    ensures
        r@ == ascii_lowercase(s@),
{
    let mut r: Vec<char> = Vec::new();
    let mut i: usize = 0;
    while i < s.len()
        invariant
            i <= s@.len(),
            r@ == ascii_lowercase(s@.take(i as int)),
        decreases s@.len() - i,
    {
        let c = s[i];
        let l = if 'A' <= c && c <= 'Z' {
            ((c as u8) + 32) as char
        } else {
            c
        };
        r.push(l);
        i += 1;
        assert(r@ =~= ascii_lowercase(s@.take(i as int)));
    }
    assert(s@.take(s@.len() as int) =~= s@);
    r
}

/// `e` is one of `list`.
fn is_one_of(e: &Vec<char>, list: &[&'static str]) -> (r: bool)
    ensures
        r == (exists|k: int| 0 <= k < list@.len() && list@[k]@ == e@),
{
    let mut k: usize = 0;
    while k < list.len()
        invariant
            k <= list@.len(),
            forall|j: int| 0 <= j < k ==> list@[j]@ != e@,
        decreases list@.len() - k,
    {
        let c = chars_of(list[k]);
        if crate::text::chars_eq(&c, e) {
            return true;
        }
        k += 1;
    }
    false
}

// ---------------------------------------------------------------------------
// Embeds
// ---------------------------------------------------------------------------

/// File extensions (lowercase) played as video.
pub const VIDEO_EXTENSIONS: [&'static str; 2] = ["mp4", "m4v"];

/// File extensions (lowercase) played as audio.
pub const AUDIO_EXTENSIONS: [&'static str; 8] = ["mp3", "wav", "ogg", "m4a", "flac", "aac", "opus", "webm"];

/// Closing tags shared by every embed whose caption was left open.
pub const FIGURE_CLOSE: &'static str = "</figcaption></figure>";

pub const YOUTUBE_HEAD: &'static str = "\n            <figure class=\"video-embed youtube-embed\">\n                <iframe\n                    width=\"560\"\n                    height=\"315\"\n                    src=\"https://www.youtube.com/embed/";

pub const YOUTUBE_TAIL: &'static str = "\"\n                    title=\"YouTube video player\"\n                    frameborder=\"0\"\n                    allow=\"accelerometer; autoplay; clipboard-write; encrypted-media; gyroscope; picture-in-picture; web-share\"\n                    referrerpolicy=\"strict-origin-when-cross-origin\"\n                    allowfullscreen>\n                </iframe>\n                <figcaption>";

pub const PDF_HEAD: &'static str = "\n            <figure class=\"pdf-embed\" data-pdf-url=\"";

pub const PDF_OBJECT: &'static str = "\">\n                <object data=\"";

pub const PDF_TYPE: &'static str = "\" type=\"application/pdf\" width=\"100%\" height=\"600px\">\n                    <p class=\"pdf-fallback\">\n                        PDF cannot be displayed inline.\n                        <a href=\"";

pub const PDF_TAIL: &'static str = "\" download data-pdf-fallback>Download PDF</a>\n                    </p>\n                </object>\n                <figcaption>";

pub const VIDEO_HEAD: &'static str = "\n            <figure class=\"video-embed\">\n                <video controls preload=\"metadata\" src=\"";

pub const VIDEO_TAIL: &'static str = "\"></video>\n                <figcaption>";

pub const AUDIO_HEAD: &'static str = "\n            <figure class=\"audio-embed\">\n                <audio controls preload=\"metadata\" src=\"";

pub const AUDIO_TAIL: &'static str = "\"></audio>\n                <figcaption>";

/// A caption: `None` for an empty title.
pub open spec fn caption_of(title: Seq<char>) -> Option<Seq<char>> {
    if title.len() == 0 {
        None
    } else {
        Some(title)
    }
}

/// The caption text, empty when absent.
pub open spec fn caption_text(caption: Option<Seq<char>>) -> Seq<char> {
    match caption {
        Some(c) => c,
        None => Seq::empty(),
    }
}

/// The closing tags when the caption is not left open.
pub open spec fn close_of(open_only: bool) -> Seq<char> {
    if open_only {
        Seq::empty()
    } else {
        FIGURE_CLOSE@
    }
}

/// A video embed (HTML5 `<video>`).
#[derive(Debug, Clone, PartialEq)]
pub struct Vid {
    pub url: String,
    pub caption: Option<String>,
}

/// An audio embed (HTML5 `<audio>`).
#[derive(Debug, Clone, PartialEq)]
pub struct Audio {
    pub url: String,
    pub caption: Option<String>,
}

/// Different types of media that can be embedded via image syntax.
#[derive(Debug, PartialEq)]
pub enum MediaEmbed {
    /// Video files (mp4, m4v)
    Video(Vid),
    /// Audio files (mp3, wav, webm, ...)
    Audio(Audio),
    /// YouTube videos - uses iframe embed
    YouTube { video_id: String, caption: Option<String> },
    /// PDF documents - uses object tag with fallback link
    Pdf { url: String, caption: Option<String> },
}

/// The abstract content of a [`MediaEmbed`].
pub enum MediaEmbedView {
    Video { url: Seq<char>, caption: Option<Seq<char>> },
    Audio { url: Seq<char>, caption: Option<Seq<char>> },
    YouTube { video_id: Seq<char>, caption: Option<Seq<char>> },
    Pdf { url: Seq<char>, caption: Option<Seq<char>> },
}

impl View for MediaEmbed {
    type V = MediaEmbedView;

    open spec fn view(&self) -> MediaEmbedView {
        match self {
            MediaEmbed::Video(v) => MediaEmbedView::Video {
                url: v.url@,
                caption: crate::link_index::opt_view(v.caption),
            },
            MediaEmbed::Audio(a) => MediaEmbedView::Audio {
                url: a.url@,
                caption: crate::link_index::opt_view(a.caption),
            },
            MediaEmbed::YouTube { video_id, caption } => MediaEmbedView::YouTube {
                video_id: video_id@,
                caption: crate::link_index::opt_view(*caption),
            },
            MediaEmbed::Pdf { url, caption } => MediaEmbedView::Pdf {
                url: url@,
                caption: crate::link_index::opt_view(*caption),
            },
        }
    }
}

/// `e` is one of the listed extensions.
pub open spec fn listed<const N: usize>(list: [&'static str; N], e: Seq<char>) -> bool {
    exists|k: int| 0 <= k < list@.len() && list@[k]@ == e
}

/// What [`MediaEmbed::from_url_and_title`] returns: YouTube URLs first (they
/// need no extension), then video, audio and PDF files by extension.
pub open spec fn media_embed_for(url: Seq<char>, title: Seq<char>) -> Option<MediaEmbedView> {
    match youtube_id(url) {
        Some(id) => Some(MediaEmbedView::YouTube { video_id: id, caption: caption_of(title) }),
        None => match url_extension(url) {
            Some(ext) => {
                let e = ascii_lowercase(ext);
                if listed(VIDEO_EXTENSIONS, e) {
                    Some(MediaEmbedView::Video { url, caption: caption_of(title) })
                } else if listed(AUDIO_EXTENSIONS, e) {
                    Some(MediaEmbedView::Audio { url, caption: caption_of(title) })
                } else if e == seq!['p', 'd', 'f'] {
                    Some(MediaEmbedView::Pdf { url, caption: caption_of(title) })
                } else {
                    None
                }
            },
            None => None,
        },
    }
}

/// What [`MediaEmbed::to_html`] returns.
pub open spec fn embed_html(m: MediaEmbedView, open_only: bool) -> Seq<char> {
    match m {
        MediaEmbedView::Video { url, caption } => VIDEO_HEAD@ + url + VIDEO_TAIL@ + caption_text(
            caption,
        ) + close_of(open_only),
        MediaEmbedView::Audio { url, caption } => AUDIO_HEAD@ + url + AUDIO_TAIL@ + caption_text(
            caption,
        ) + close_of(open_only),
        MediaEmbedView::YouTube { video_id, caption } => YOUTUBE_HEAD@ + video_id + YOUTUBE_TAIL@
            + caption_text(caption) + close_of(open_only),
        MediaEmbedView::Pdf { url, caption } => PDF_HEAD@ + url + PDF_OBJECT@ + url + PDF_TYPE@ + url
            + PDF_TAIL@ + caption_text(caption) + close_of(open_only),
    }
}

fn caption_from(title: &str) -> (r: Option<String>)
    ensures
        crate::link_index::opt_view(r) == caption_of(title@),
{
    if title.is_empty() {
        None
    } else {
        Some(string_of(&chars_of(title)))
    }
}

fn push_str_chars(out: &mut Vec<char>, s: &str)
    ensures
        final(out)@ == old(out)@ + s@,
{
    let c = chars_of(s);
    push_all(out, &c);
}

fn push_caption(out: &mut Vec<char>, caption: &Option<String>)
    ensures
        final(out)@ == old(out)@ + caption_text(crate::link_index::opt_view(*caption)),
{
    match caption {
        Some(c) => push_str_chars(out, c.as_str()),
        None => {
            assert(old(out)@ + Seq::<char>::empty() =~= old(out)@);
        },
    }
}

fn push_close(out: &mut Vec<char>, open_only: bool)
    ensures
        final(out)@ == old(out)@ + close_of(open_only),
{
    if !open_only {
        push_str_chars(out, FIGURE_CLOSE);
    } else {
        assert(old(out)@ + Seq::<char>::empty() =~= old(out)@);
    }
}

impl Vid {
    /// A video embed for `url` when its extension is a video extension.
    pub fn from_url_and_title(url: &str, title: &str) -> (r: Option<Vid>)
        ensures
            match r {
                Some(v) => v.url@ == url@ && crate::link_index::opt_view(v.caption) == caption_of(
                    title@,
                ) && (url_extension(url@) matches Some(ext) && listed(
                    VIDEO_EXTENSIONS,
                    ascii_lowercase(ext),
                )),
                None => !(url_extension(url@) matches Some(ext) && listed(
                    VIDEO_EXTENSIONS,
                    ascii_lowercase(ext),
                )),
            },
    {
        let u = chars_of(url);
        match extension_exec(&u) {
            Some(ext) => {
                let e = ascii_lowercase_exec(&ext);
                if is_one_of(&e, &VIDEO_EXTENSIONS) {
                    Some(Vid { url: string_of(&u), caption: caption_from(title) })
                } else {
                    None
                }
            },
            None => None,
        }
    }

    /// Closing tags.
    pub fn html_close() -> (r: String)
        ensures
            r@ == FIGURE_CLOSE@,
    {
        string_of(&chars_of(FIGURE_CLOSE))
    }
}

impl Audio {
    /// An audio embed for `url` when its extension is an audio extension.
    pub fn from_url_and_title(url: &str, title: &str) -> (r: Option<Audio>)
        ensures
            match r {
                Some(a) => a.url@ == url@ && crate::link_index::opt_view(a.caption) == caption_of(
                    title@,
                ) && (url_extension(url@) matches Some(ext) && listed(
                    AUDIO_EXTENSIONS,
                    ascii_lowercase(ext),
                )),
                None => !(url_extension(url@) matches Some(ext) && listed(
                    AUDIO_EXTENSIONS,
                    ascii_lowercase(ext),
                )),
            },
    {
        let u = chars_of(url);
        match extension_exec(&u) {
            Some(ext) => {
                let e = ascii_lowercase_exec(&ext);
                if is_one_of(&e, &AUDIO_EXTENSIONS) {
                    Some(Audio { url: string_of(&u), caption: caption_from(title) })
                } else {
                    None
                }
            },
            None => None,
        }
    }

    /// Closing tags.
    pub fn html_close() -> (r: String)
        ensures
            r@ == FIGURE_CLOSE@,
    {
        string_of(&chars_of(FIGURE_CLOSE))
    }
}

impl MediaEmbed {
    /// Detect the media type of `url` and create the matching embed:
    /// YouTube URLs first (they might not have extensions), then video,
    /// audio and PDF files by extension. `None` when the URL is no known
    /// media type.
    pub fn from_url_and_title(url: &str, title: &str) -> (r: Option<MediaEmbed>)
        ensures
            match r {
                Some(m) => media_embed_for(url@, title@) == Some(m@),
                None => media_embed_for(url@, title@) is None,
            },
    {
        let u = chars_of(url);
        if let Some(id) = youtube_id_exec(&u) {
            return Some(MediaEmbed::YouTube { video_id: string_of(&id), caption: caption_from(title) });
        }
        if let Some(ext) = extension_exec(&u) {
            let e = ascii_lowercase_exec(&ext);
            if let Some(vid) = Vid::from_url_and_title(url, title) {
                return Some(MediaEmbed::Video(vid));
            }
            if let Some(audio) = Audio::from_url_and_title(url, title) {
                return Some(MediaEmbed::Audio(audio));
            }
            if e.len() == 3 && e[0] == 'p' && e[1] == 'd' && e[2] == 'f' {
                assert(e@ =~= seq!['p', 'd', 'f']);
                return Some(
                    MediaEmbed::Pdf { url: string_of(&u), caption: caption_from(title) },
                );
            }
            assert(e@ != seq!['p', 'd', 'f']) by {
                if e@ == seq!['p', 'd', 'f'] {
                    assert(e@[0] == 'p' && e@[1] == 'd' && e@[2] == 'f');
                }
            }
        }
        None
    }

    /// Opening HTML for the embed; with `open_only` the `<figcaption>` is
    /// left open for the markdown parser to fill.
    pub fn to_html(&self, open_only: bool) -> (r: String)
        ensures
            r@ == embed_html(self@, open_only),
    {
        let mut out: Vec<char> = Vec::new();
        match self {
            MediaEmbed::Video(v) => {
                push_str_chars(&mut out, VIDEO_HEAD);
                push_str_chars(&mut out, v.url.as_str());
                push_str_chars(&mut out, VIDEO_TAIL);
                push_caption(&mut out, &v.caption);
            },
            MediaEmbed::Audio(a) => {
                push_str_chars(&mut out, AUDIO_HEAD);
                push_str_chars(&mut out, a.url.as_str());
                push_str_chars(&mut out, AUDIO_TAIL);
                push_caption(&mut out, &a.caption);
            },
            MediaEmbed::YouTube { video_id, caption } => {
                push_str_chars(&mut out, YOUTUBE_HEAD);
                push_str_chars(&mut out, video_id.as_str());
                push_str_chars(&mut out, YOUTUBE_TAIL);
                push_caption(&mut out, caption);
            },
            MediaEmbed::Pdf { url, caption } => {
                push_str_chars(&mut out, PDF_HEAD);
                push_str_chars(&mut out, url.as_str());
                push_str_chars(&mut out, PDF_OBJECT);
                push_str_chars(&mut out, url.as_str());
                push_str_chars(&mut out, PDF_TYPE);
                push_str_chars(&mut out, url.as_str());
                push_str_chars(&mut out, PDF_TAIL);
                push_caption(&mut out, caption);
            },
        }
        push_close(&mut out, open_only);
        assert(out@ =~= embed_html(self@, open_only));
        string_of(&out)
    }

    /// Closing HTML tags.
    pub fn html_close(&self) -> (r: String)
        ensures
            r@ == FIGURE_CLOSE@,
    {
        match self {
            MediaEmbed::Video(_) => Vid::html_close(),
            MediaEmbed::Audio(_) => Audio::html_close(),
            MediaEmbed::YouTube { .. } | MediaEmbed::Pdf { .. } => string_of(&chars_of(FIGURE_CLOSE)),
        }
    }
}

// ---------------------------------------------------------------------------
// Laws
// ---------------------------------------------------------------------------

/// A prefix of a URL that cannot start a YouTube form: it holds no `y`.
pub open spec fn lacks_y(s: Seq<char>) -> bool {
    forall|j: int| 0 <= j < s.len() ==> #[trigger] s[j] != 'y'
}

/// Eleven id characters: a YouTube video id.
pub open spec fn is_video_id(id: Seq<char>) -> bool {
    id.len() == 11 && forall|j: int| 0 <= j < 11 ==> is_id_char(#[trigger] id[j])
}

/// No YouTube form starts at a position that does not hold `y`.
proof fn lemma_no_form_without_y(s: Seq<char>, i: int)
    requires
        0 <= i < s.len(),
        s[i] != 'y',
    ensures
        youtube_at(s, i) is None,
{
    if occurs_at(s, i, watch_prefix()) {
        assert(s.subrange(i, i + 18)[0] == s[i]);
    }
    if occurs_at(s, i, short_prefix()) {
        assert(s.subrange(i, i + 9)[0] == s[i]);
    }
    if occurs_at(s, i, embed_prefix()) {
        assert(s.subrange(i, i + 18)[0] == s[i]);
    }
    if occurs_at(s, i, v_prefix()) {
        assert(s.subrange(i, i + 14)[0] == s[i]);
    }
}

/// The scan for a YouTube form passes over positions without a `y`.
proof fn lemma_youtube_from_skips(s: Seq<char>, i: int, k: int)
    requires
        0 <= i <= k <= s.len(),
        forall|j: int| i <= j < k ==> #[trigger] s[j] != 'y',
    ensures
        youtube_from(s, i) == youtube_from(s, k),
    decreases k - i,
{
    if i < k {
        lemma_no_form_without_y(s, i);
        lemma_youtube_from_skips(s, i + 1, k);
    }
}

/// In a URL of the form `site + p + id + rest`, where `site` holds no `y`,
/// a YouTube form found where `p` starts gives the URL's id.
proof fn lemma_form_after_site(site: Seq<char>, p: Seq<char>, id: Seq<char>, rest: Seq<char>)
    requires
        lacks_y(site),
        youtube_at(site + p + id + rest, site.len() as int) is Some,
    ensures
        youtube_id(site + p + id + rest) == youtube_at(site + p + id + rest, site.len() as int),
{
    let s = site + p + id + rest;
    assert forall|j: int| 0 <= j < site.len() implies #[trigger] s[j] != 'y' by {
        assert(s[j] == site[j]);
    }
    lemma_youtube_from_skips(s, 0, site.len() as int);
}

/// A `youtube.com/v/` link is embedded as that video: for every site part
/// without a `y` (such as `https://www.`), every eleven-character id of
/// `[a-zA-Z0-9_-]` and whatever follows it, the image syntax names a
/// YouTube embed of exactly that id, captioned with the title.
pub proof fn law_youtube_v_links_embed_their_video(site: Seq<char>, id: Seq<char>, rest: Seq<char>, title: Seq<char>)
    requires
        lacks_y(site),
        is_video_id(id),
    ensures
        media_embed_for(site + "youtube.com/v/"@ + id + rest, title) == Some(
            MediaEmbedView::YouTube { video_id: id, caption: caption_of(title) },
        ),
{
    reveal_strlit("youtube.com/v/");
    assert("youtube.com/v/"@ =~= v_prefix());
    let s = site + v_prefix() + id + rest;
    let n = site.len() as int;
    assert(s.subrange(n, n + 14) =~= v_prefix());
    assert(!occurs_at(s, n, watch_prefix())) by {
        if occurs_at(s, n, watch_prefix()) {
            assert(s.subrange(n, n + 18)[12] == s[n + 12]);
        }
    }
    assert(!occurs_at(s, n, short_prefix())) by {
        if occurs_at(s, n, short_prefix()) {
            assert(s.subrange(n, n + 9)[5] == s[n + 5]);
        }
    }
    assert(!occurs_at(s, n, embed_prefix())) by {
        if occurs_at(s, n, embed_prefix()) {
            assert(s.subrange(n, n + 18)[12] == s[n + 12]);
        }
    }
    assert forall|j: int| n + 14 <= j < n + 25 implies is_id_char(#[trigger] s[j]) by {
        assert(s[j] == id[j - n - 14]);
    }
    assert(s.subrange(n + 14, n + 25) =~= id);
    assert(id_at(s, n + 14) == Some(id));
    lemma_form_after_site(site, v_prefix(), id, rest);
}

/// A `youtube.com/embed/` link is embedded as that video, as for
/// `youtube.com/v/` links.
pub proof fn law_youtube_embed_links_embed_their_video(site: Seq<char>, id: Seq<char>, rest: Seq<char>, title: Seq<char>)
    requires
        lacks_y(site),
        is_video_id(id),
    ensures
        media_embed_for(site + "youtube.com/embed/"@ + id + rest, title) == Some(
            MediaEmbedView::YouTube { video_id: id, caption: caption_of(title) },
        ),
{
    reveal_strlit("youtube.com/embed/");
    assert("youtube.com/embed/"@ =~= embed_prefix());
    let s = site + embed_prefix() + id + rest;
    let n = site.len() as int;
    assert(s.subrange(n, n + 18) =~= embed_prefix());
    assert(!occurs_at(s, n, watch_prefix())) by {
        if occurs_at(s, n, watch_prefix()) {
            assert(s.subrange(n, n + 18)[12] == s[n + 12]);
        }
    }
    assert(!occurs_at(s, n, short_prefix())) by {
        if occurs_at(s, n, short_prefix()) {
            assert(s.subrange(n, n + 9)[5] == s[n + 5]);
        }
    }
    assert forall|j: int| n + 18 <= j < n + 29 implies is_id_char(#[trigger] s[j]) by {
        assert(s[j] == id[j - n - 18]);
    }
    assert(s.subrange(n + 18, n + 29) =~= id);
    assert(id_at(s, n + 18) == Some(id));
    lemma_form_after_site(site, embed_prefix(), id, rest);
}

/// A `youtu.be/` link is embedded as that video, as for `youtube.com/v/`
/// links.
pub proof fn law_youtu_be_links_embed_their_video(site: Seq<char>, id: Seq<char>, rest: Seq<char>, title: Seq<char>)
    requires
        lacks_y(site),
        is_video_id(id),
    ensures
        media_embed_for(site + "youtu.be/"@ + id + rest, title) == Some(
            MediaEmbedView::YouTube { video_id: id, caption: caption_of(title) },
        ),
{
    reveal_strlit("youtu.be/");
    assert("youtu.be/"@ =~= short_prefix());
    let s = site + short_prefix() + id + rest;
    let n = site.len() as int;
    assert(s.subrange(n, n + 9) =~= short_prefix());
    assert(!occurs_at(s, n, watch_prefix())) by {
        if occurs_at(s, n, watch_prefix()) {
            assert(s.subrange(n, n + 18)[5] == s[n + 5]);
        }
    }
    assert forall|j: int| n + 9 <= j < n + 20 implies is_id_char(#[trigger] s[j]) by {
        assert(s[j] == id[j - n - 9]);
    }
    assert(s.subrange(n + 9, n + 20) =~= id);
    assert(id_at(s, n + 9) == Some(id));
    lemma_form_after_site(site, short_prefix(), id, rest);
}

/// What may follow a file's extension in a URL: nothing, or a query or
/// fragment on one line.
pub open spec fn query_or_fragment(tail: Seq<char>) -> bool {
    tail.len() == 0 || ((tail[0] == '?' || tail[0] == '#') && no_newline(tail, 1, tail.len() as int))
}

/// `s` holds no `?` or `#`.
pub open spec fn no_query_mark(s: Seq<char>) -> bool {
    forall|j: int| 0 <= j < s.len() ==> #[trigger] s[j] != '?' && s[j] != '#'
}

/// A run of alphanumerics from `i` that ends at `m` ends there.
proof fn lemma_alnum_run(s: Seq<char>, i: int, m: int)
    requires
        0 <= i <= m <= s.len(),
        forall|j: int| i <= j < m ==> is_alnum(#[trigger] s[j]),
        m == s.len() || !is_alnum(s[m]),
    ensures
        alnum_end(s, i) == m,
    decreases m - i,
{
    if i < m {
        lemma_alnum_run(s, i + 1, m);
    }
}

/// A run of alphanumerics from `i` stops at a non-alphanumeric at or
/// before `m`.
proof fn lemma_alnum_run_stops(s: Seq<char>, i: int, m: int)
    requires
        0 <= i <= m < s.len(),
        !is_alnum(s[m]),
    ensures
        i <= alnum_end(s, i) <= m,
        !is_alnum(s[alnum_end(s, i)]),
    decreases m - i,
{
    if i < m && is_alnum(s[i]) {
        lemma_alnum_run_stops(s, i + 1, m);
    }
}

proof fn lemma_extension_from_skips(s: Seq<char>, i: int, k: int)
    requires
        0 <= i <= k <= s.len(),
        forall|j: int| i <= j < k ==> #[trigger] extension_at(s, j) is None,
    ensures
        extension_from(s, i) == extension_from(s, k),
    decreases k - i,
{
    if i < k {
        lemma_extension_from_skips(s, i + 1, k);
    }
}

/// A file link is embedded by its extension, whatever its case, with any
/// query or fragment ignored: for a URL `name.ext` plus an optional
/// one-line query or fragment, with no `?` or `#` in `name` and no YouTube
/// form anywhere (no `y`), a video extension gives a video embed of the
/// URL as written, else an audio extension an audio embed, else `pdf` a
/// PDF embed, and any other extension no embed at all.
pub proof fn law_files_embed_by_extension(name: Seq<char>, ext: Seq<char>, tail: Seq<char>, title: Seq<char>)
    requires
        no_query_mark(name),
        ext.len() > 0,
        forall|j: int| 0 <= j < ext.len() ==> is_alnum(#[trigger] ext[j]),
        query_or_fragment(tail),
        lacks_y(name + seq!['.'] + ext + tail),
    ensures
        listed(VIDEO_EXTENSIONS, ascii_lowercase(ext)) ==> media_embed_for(name + seq!['.'] + ext + tail, title)
            == Some(MediaEmbedView::Video { url: name + seq!['.'] + ext + tail, caption: caption_of(title) }),
        !listed(VIDEO_EXTENSIONS, ascii_lowercase(ext)) && listed(AUDIO_EXTENSIONS, ascii_lowercase(ext))
            ==> media_embed_for(name + seq!['.'] + ext + tail, title) == Some(MediaEmbedView::Audio { url: name + seq!['.'] + ext + tail, caption: caption_of(title) }),
        !listed(VIDEO_EXTENSIONS, ascii_lowercase(ext)) && !listed(AUDIO_EXTENSIONS, ascii_lowercase(ext))
            && ascii_lowercase(ext) == seq!['p', 'd', 'f'] ==> media_embed_for(name + seq!['.'] + ext + tail, title)
            == Some(MediaEmbedView::Pdf { url: name + seq!['.'] + ext + tail, caption: caption_of(title) }),
        !listed(VIDEO_EXTENSIONS, ascii_lowercase(ext)) && !listed(AUDIO_EXTENSIONS, ascii_lowercase(ext))
            && ascii_lowercase(ext) != seq!['p', 'd', 'f'] ==> media_embed_for(name + seq!['.'] + ext + tail, title)
            is None,
{
    let s = name + seq!['.'] + ext + tail;
    let n = name.len() as int;
    let m = n + 1 + ext.len();
    // No YouTube form.
    lemma_youtube_from_skips(s, 0, s.len() as int);
    // No extension starts inside the name.
    assert(s[n] == '.');
    assert forall|j: int| 0 <= j < n implies #[trigger] extension_at(s, j) is None by {
        if s[j] == '.' {
            lemma_alnum_run_stops(s, j + 1, n);
            let e = alnum_end(s, j + 1);
            if e < n {
                assert(s[e] == name[e]);
            }
        }
    }
    lemma_extension_from_skips(s, 0, n);
    // The extension itself.
    assert forall|j: int| n + 1 <= j < m implies is_alnum(#[trigger] s[j]) by {
        assert(s[j] == ext[j - n - 1]);
    }
    if tail.len() > 0 {
        assert(s[m] == tail[0]);
        assert forall|j: int| m + 1 <= j < s.len() implies #[trigger] s[j] != '\n' by {
            assert(s[j] == tail[j - m]);
        }
    }
    lemma_alnum_run(s, n + 1, m);
    assert(s.subrange(n + 1, m) =~= ext);
    assert(extension_at(s, n) == Some(ext));
}

} // verus!
