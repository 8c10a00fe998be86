//! Classification of hrefs as on-site or off-site.

use vstd::prelude::*;
use crate::text::{chars_of, starts_with};

verus! {

/// An ASCII letter.
pub open spec fn is_ascii_alpha(c: char) -> bool {
    ('a' <= c && c <= 'z') || ('A' <= c && c <= 'Z')
}

/// A character allowed after the first one of a URL scheme (RFC 3986 §3.1).
pub open spec fn is_scheme_char(c: char) -> bool {
    is_ascii_alpha(c) || ('0' <= c && c <= '9') || c == '+' || c == '-' || c == '.'
}

/// `s` opens with a URL scheme of at least two characters followed by `:`.
///
/// A single letter before the colon is a Windows drive (`C:/path`), not a
/// scheme, and a colon after any non-scheme character (`docs/a:b.md`) is part
/// of a path.
pub open spec fn has_scheme(s: Seq<char>) -> bool {
    exists|k: int|
        2 <= k < s.len() && #[trigger] s[k] == ':' && is_ascii_alpha(s[0]) && (forall|j: int|
            1 <= j < k ==> #[trigger] is_scheme_char(s[j]))
}

/// An href that leaves the site: it carries a scheme (`https:`, `mailto:`,
/// `magnet:`, `blob:`, ...) or is protocol-relative (`//host/...`).
pub open spec fn is_external(s: Seq<char>) -> bool {
    starts_with(s, seq!['/', '/']) || has_scheme(s)
}

fn is_ascii_alpha_exec(c: char) -> (r: bool)
    ensures
        r == is_ascii_alpha(c),
{
    ('a' <= c && c <= 'z') || ('A' <= c && c <= 'Z')
}

fn is_scheme_char_exec(c: char) -> (r: bool)
    ensures
        r == is_scheme_char(c),
{
    is_ascii_alpha_exec(c) || ('0' <= c && c <= '9') || c == '+' || c == '-' || c == '.'
}

/// Whether the character sequence `s` is an external href.
pub fn is_external_chars(s: &[char]) -> (r: bool)
    ensures
        r == is_external(s@),
{
    if s.len() >= 2 && s[0] == '/' && s[1] == '/' {
        assert(s@.take(2) =~= seq!['/', '/']);
        return true;
    }
    assert(!starts_with(s@, seq!['/', '/'])) by {
        if starts_with(s@, seq!['/', '/']) {
            assert(s@.take(2)[0] == '/' && s@.take(2)[1] == '/');
        }
    }
    if s.len() == 0 || !is_ascii_alpha_exec(s[0]) {
        return false;
    }
    let mut k: usize = 1;
    while k < s.len() && is_scheme_char_exec(s[k])
        invariant
            1 <= k <= s@.len(),
            is_ascii_alpha(s@[0]),
            forall|j: int| 1 <= j < k ==> #[trigger] is_scheme_char(s@[j]),
        decreases s@.len() - k,
    {
        k += 1;
    }
    if k >= 2 && k < s.len() && s[k] == ':' {
        assert(has_scheme(s@)) by {
            assert(forall|j: int| 1 <= j < k ==> #[trigger] is_scheme_char(s@[j]));
        }
        true
    } else {
        assert(!has_scheme(s@)) by {
            if has_scheme(s@) {
                let w = choose|w: int|
                    2 <= w < s@.len() && #[trigger] s@[w] == ':' && is_ascii_alpha(s@[0]) && (forall|j: int|
                        1 <= j < w ==> #[trigger] is_scheme_char(s@[j]));
                if w < k {
                    assert(is_scheme_char(s@[w]));
                } else if w > k {
                    if k < s@.len() {
                        assert(is_scheme_char(s@[k as int]));
                    }
                }
            }
        }
        false
    }
}

/// Whether `url` leaves the site. Link transformation, link tracking and
/// link validation all share this one predicate, so they cannot disagree
/// about a given href.
pub fn is_external_url(url: &str) -> (r: bool)
    ensures
        r == is_external(url@),
{
    let v = chars_of(url);
    is_external_chars(&v)
}

} // verus!
