//! Character-sequence helpers shared by the URL and markdown logic.
//!
//! Strings are handled as sequences of `char`: the spec functions here state
//! what the familiar `str` operations (`starts_with`, `trim_end_matches`,
//! `find`, ...) mean on a `Seq<char>`, and the executable functions compute
//! them over `&[char]`.

use vstd::prelude::*;
use vstd::std_specs::iter::IteratorSpec;

verus! {

broadcast use vstd::string::group_string_axioms;

// ---------------------------------------------------------------------------
// Specifications
// ---------------------------------------------------------------------------

/// `s` begins with `p`.
pub open spec fn starts_with(s: Seq<char>, p: Seq<char>) -> bool {
    p.len() <= s.len() && s.take(p.len() as int) == p
}

/// `s` ends with `p`.
pub open spec fn ends_with(s: Seq<char>, p: Seq<char>) -> bool {
    p.len() <= s.len() && s.skip(s.len() - p.len()) == p
}

/// `s` with every trailing `c` removed (`str::trim_end_matches(c)`).
pub open spec fn trim_end(s: Seq<char>, c: char) -> Seq<char>
    decreases s.len(),
{
    if s.len() > 0 && s.last() == c {
        trim_end(s.drop_last(), c)
    } else {
        s
    }
}

/// `s` with every leading `c` removed (`str::trim_start_matches(c)`).
pub open spec fn trim_start(s: Seq<char>, c: char) -> Seq<char>
    decreases s.len(),
{
    if s.len() > 0 && s[0] == c {
        trim_start(s.drop_first(), c)
    } else {
        s
    }
}

/// Index of the first `c` at or after `i`.
pub open spec fn find_from(s: Seq<char>, c: char, i: int) -> Option<int>
    decreases s.len() - i,
{
    if i < 0 || i >= s.len() {
        None
    } else if s[i] == c {
        Some(i)
    } else {
        find_from(s, c, i + 1)
    }
}

/// Index of the first `c` in `s` (`str::find(c)`).
pub open spec fn find_char(s: Seq<char>, c: char) -> Option<int> {
    find_from(s, c, 0)
}

/// Index of the last `c` in `s` (`str::rfind(c)`).
pub open spec fn rfind_char(s: Seq<char>, c: char) -> Option<int>
    decreases s.len(),
{
    if s.len() == 0 {
        None
    } else if s.last() == c {
        Some(s.len() - 1)
    } else {
        rfind_char(s.drop_last(), c)
    }
}

/// `p` repeated `n` times.
pub open spec fn repeat(p: Seq<char>, n: nat) -> Seq<char>
    decreases n,
{
    if n == 0 {
        Seq::empty()
    } else {
        repeat(p, (n - 1) as nat) + p
    }
}

/// `"../"` repeated `n` times.
pub open spec fn up_dirs(n: nat) -> Seq<char> {
    repeat(seq!['.', '.', '/'], n)
}

// ---------------------------------------------------------------------------
// Lemmas
// ---------------------------------------------------------------------------

/// Where the first `c` at or after `i` is, and that there is none before it.
pub proof fn lemma_find_from_bounds(s: Seq<char>, c: char, i: int)
    ensures
        find_from(s, c, i) matches Some(k) ==> i <= k < s.len() && s[k] == c && (forall|j: int|
            i <= j < k ==> s[j] != c),
        find_from(s, c, i) is None ==> (forall|j: int| i <= j < s.len() && 0 <= i ==> s[j] != c),
    decreases s.len() - i,
{
    if i < 0 || i >= s.len() {
    } else if s[i] == c {
    } else {
        lemma_find_from_bounds(s, c, i + 1);
    }
}

/// Where the last `c` is, and that there is none after it.
pub proof fn lemma_rfind_bounds(s: Seq<char>, c: char)
    ensures
        rfind_char(s, c) matches Some(k) ==> 0 <= k < s.len() && s[k] == c && (forall|j: int|
            k < j < s.len() ==> s[j] != c),
        rfind_char(s, c) is None ==> (forall|j: int| 0 <= j < s.len() ==> s[j] != c),
    decreases s.len(),
{
    if s.len() == 0 {
    } else if s.last() == c {
    } else {
        lemma_rfind_bounds(s.drop_last(), c);
        assert forall|j: int| 0 <= j < s.len() - 1 implies s.drop_last()[j] == s[j] by {}
    }
}

/// Trimming the end leaves a prefix, and what it removed is all `c`.
pub proof fn lemma_trim_end_prefix(s: Seq<char>, c: char)
    ensures
        trim_end(s, c).len() <= s.len(),
        trim_end(s, c) == s.take(trim_end(s, c).len() as int),
        forall|j: int| trim_end(s, c).len() <= j < s.len() ==> s[j] == c,
        trim_end(s, c).len() > 0 ==> trim_end(s, c).last() != c,
    decreases s.len(),
{
    if s.len() > 0 && s.last() == c {
        lemma_trim_end_prefix(s.drop_last(), c);
        assert(s.drop_last().take(trim_end(s, c).len() as int) =~= s.take(
            trim_end(s, c).len() as int,
        ));
        assert forall|j: int| trim_end(s, c).len() <= j < s.len() implies s[j] == c by {
            if j < s.len() - 1 {
                assert(s.drop_last()[j] == s[j]);
            }
        }
    } else {
        assert(s.take(s.len() as int) =~= s);
    }
}

/// Trimming the start leaves a suffix, and what it removed is all `c`.
pub proof fn lemma_trim_start_suffix(s: Seq<char>, c: char)
    ensures
        trim_start(s, c).len() <= s.len(),
        trim_start(s, c) == s.skip(s.len() - trim_start(s, c).len()),
        forall|j: int| 0 <= j < s.len() - trim_start(s, c).len() ==> s[j] == c,
        trim_start(s, c).len() > 0 ==> trim_start(s, c)[0] != c,
    decreases s.len(),
{
    if s.len() > 0 && s[0] == c {
        lemma_trim_start_suffix(s.drop_first(), c);
        let t = trim_start(s, c);
        assert(s.drop_first().skip(s.drop_first().len() - t.len()) =~= s.skip(s.len() - t.len()));
        assert forall|j: int| 0 <= j < s.len() - t.len() implies s[j] == c by {
            if j > 0 {
                assert(s.drop_first()[j - 1] == s[j]);
            }
        }
    } else {
        assert(s.skip(0) =~= s);
    }
}

/// `"../"` repeated `n` times has `3 * n` characters.
pub proof fn lemma_up_dirs_len(n: nat)
    ensures
        up_dirs(n).len() == 3 * n,
    decreases n,
{
    if n > 0 {
        lemma_up_dirs_len((n - 1) as nat);
    }
}

// ---------------------------------------------------------------------------
// Executable helpers
// ---------------------------------------------------------------------------

/// The characters of `s`, in order.
pub fn chars_of(s: &str) -> (v: Vec<char>)
    ensures
        v@ == s@,
{
    let mut v: Vec<char> = Vec::new();
    for c in it: s.chars()
        invariant
            v@ == it.seq().take(it.index() as int),
    {
        v.push(c);
    }
    v
}

/// Appends one character to a string (`String::push`).
#[verifier::external_body]
pub(crate) fn push_char(s: &mut String, c: char)
    ensures
        final(s)@ == old(s)@.push(c),
{
    s.push(c);
}

/// The string holding exactly the characters of `v`.
pub fn string_of(v: &[char]) -> (s: String)
    ensures
        s@ == v@,
{
    let mut s = String::new();
    let mut i: usize = 0;
    while i < v.len()
        invariant
            i <= v@.len(),
            s@ == v@.subrange(0, i as int),
        decreases v@.len() - i,
    {
        push_char(&mut s, v[i]);
        i += 1;
        assert(v@.subrange(0, i as int) =~= v@.subrange(0, (i - 1) as int).push(v@[i - 1]));
    }
    assert(v@.subrange(0, v@.len() as int) =~= v@);
    s
}

/// Appends all of `s` to `v`.
pub fn push_all(v: &mut Vec<char>, s: &[char])
    ensures
        final(v)@ == old(v)@ + s@,
{
    let mut i: usize = 0;
    while i < s.len()
        invariant
            i <= s@.len(),
            v@ == old(v)@ + s@.take(i as int),
        decreases s@.len() - i,
    {
        v.push(s[i]);
        i += 1;
        assert(s@.take(i as int) =~= s@.take((i - 1) as int).push(s@[i - 1]));
    }
    assert(s@.take(s@.len() as int) =~= s@);
}

/// A copy of `s[from..to]`.
pub fn copy_range(s: &[char], from: usize, to: usize) -> (r: Vec<char>)
    requires
        from <= to <= s@.len(),
    ensures
        r@ == s@.subrange(from as int, to as int),
{
    let mut r: Vec<char> = Vec::new();
    let mut i: usize = from;
    while i < to
        invariant
            from <= i <= to <= s@.len(),
            r@ == s@.subrange(from as int, i as int),
        decreases to - i,
    {
        r.push(s[i]);
        i += 1;
        assert(s@.subrange(from as int, i as int) =~= s@.subrange(from as int, (i - 1) as int).push(
            s@[i - 1],
        ));
    }
    r
}

/// The two character sequences are equal.
pub fn chars_eq(a: &[char], b: &[char]) -> (r: bool)
    ensures
        r == (a@ == b@),
{
    if a.len() != b.len() {
        return false;
    }
    let mut i: usize = 0;
    while i < a.len()
        invariant
            a@.len() == b@.len(),
            i <= a@.len(),
            forall|j: int| 0 <= j < i ==> a@[j] == b@[j],
        decreases a@.len() - i,
    {
        if a[i] != b[i] {
            return false;
        }
        i += 1;
    }
    assert(a@ =~= b@);
    true
}

/// `s` begins with `p`.
pub fn has_prefix(s: &[char], p: &[char]) -> (r: bool)
    ensures
        r == starts_with(s@, p@),
{
    if p.len() > s.len() {
        return false;
    }
    let mut i: usize = 0;
    while i < p.len()
        invariant
            p@.len() <= s@.len(),
            i <= p@.len(),
            forall|j: int| 0 <= j < i ==> s@[j] == p@[j],
        decreases p@.len() - i,
    {
        if s[i] != p[i] {
            assert(s@.take(p@.len() as int)[i as int] != p@[i as int]);
            return false;
        }
        i += 1;
    }
    assert(s@.take(p@.len() as int) =~= p@);
    true
}

/// `s` ends with `p`.
pub fn has_suffix(s: &[char], p: &[char]) -> (r: bool)
    ensures
        r == ends_with(s@, p@),
{
    if p.len() > s.len() {
        return false;
    }
    let slen = s.len();
    let off = slen - p.len();
    let mut i: usize = 0;
    while i < p.len()
        invariant
            slen == s@.len(),
            p@.len() <= s@.len(),
            off + p@.len() == s@.len(),
            i <= p@.len(),
            forall|j: int| 0 <= j < i ==> s@[off + j] == p@[j],
        decreases p@.len() - i,
    {
        assert(off + i < s@.len());
        if s[off + i] != p[i] {
            assert(s@.skip(off as int)[i as int] != p@[i as int]);
            return false;
        }
        i += 1;
    }
    assert(s@.skip(off as int) =~= p@);
    true
}

/// The length of `trim_end(s, c)`.
pub fn trim_end_len(s: &[char], c: char) -> (n: usize)
    ensures
        n <= s@.len(),
        s@.take(n as int) == trim_end(s@, c),
{
    proof {
        lemma_trim_end_prefix(s@, c);
    }
    let mut n = s.len();
    assert(s@.take(s@.len() as int) =~= s@);
    while n > 0 && s[n - 1] == c
        invariant
            n <= s@.len(),
            trim_end(s@.take(n as int), c) == trim_end(s@, c),
        decreases n,
    {
        assert(s@.take(n as int).drop_last() =~= s@.take(n - 1));
        n -= 1;
    }
    assert(s@.take(s@.len() as int) =~= s@);
    n
}

/// Where `trim_start(s, c)` begins.
pub fn trim_start_pos(s: &[char], c: char) -> (n: usize)
    ensures
        n <= s@.len(),
        s@.skip(n as int) == trim_start(s@, c),
{
    let mut n: usize = 0;
    assert(s@.skip(0) =~= s@);
    while n < s.len() && s[n] == c
        invariant
            n <= s@.len(),
            trim_start(s@.skip(n as int), c) == trim_start(s@, c),
        decreases s@.len() - n,
    {
        assert(s@.skip(n as int).drop_first() =~= s@.skip(n + 1));
        n += 1;
    }
    n
}

/// Index of the first `c` in `s` at or after `from`.
pub fn find_char_from(s: &[char], c: char, from: usize) -> (r: Option<usize>)
    ensures
        r matches Some(k) ==> find_from(s@, c, from as int) == Some(k as int),
        r is None ==> find_from(s@, c, from as int) is None,
{
    let mut i = from;
    if i >= s.len() {
        return None;
    }
    while i < s.len()
        invariant
            from <= i,
            i <= s@.len(),
            find_from(s@, c, from as int) == find_from(s@, c, i as int),
        decreases s@.len() - i,
    {
        if s[i] == c {
            return Some(i);
        }
        i += 1;
    }
    None
}

/// Index of the last `c` in `s`.
pub fn rfind_char_exec(s: &[char], c: char) -> (r: Option<usize>)
    ensures
        r matches Some(k) ==> rfind_char(s@, c) == Some(k as int),
        r is None ==> rfind_char(s@, c) is None,
{
    let mut n = s.len();
    assert(s@.take(s@.len() as int) =~= s@);
    while n > 0
        invariant
            n <= s@.len(),
            rfind_char(s@.take(n as int), c) == rfind_char(s@, c),
        decreases n,
    {
        if s[n - 1] == c {
            return Some(n - 1);
        }
        assert(s@.take(n as int).drop_last() =~= s@.take(n - 1));
        n -= 1;
    }
    None
}

/// `"../"` repeated `n` times.
pub fn up_dirs_exec(n: usize) -> (r: Vec<char>)
    requires
        n <= usize::MAX / 3,
    ensures
        r@ == up_dirs(n as nat),
{
    let mut r: Vec<char> = Vec::new();
    let mut i: usize = 0;
    while i < n
        invariant
            i <= n,
            r@ == up_dirs(i as nat),
        decreases n - i,
    {
        r.push('.');
        r.push('.');
        r.push('/');
        i += 1;
        assert(r@ =~= up_dirs(i as nat));
    }
    r
}

/// The character view of each string.
pub open spec fn views_of(v: Seq<String>) -> Seq<Seq<char>> {
    v.map_values(|s: String| s@)
}

/// A copy of a list of strings.
pub fn clone_strings(v: &Vec<String>) -> (r: Vec<String>)
    ensures
        views_of(r@) == views_of(v@),
{
    let mut r: Vec<String> = Vec::new();
    let mut i: usize = 0;
    while i < v.len()
        invariant
            i <= v@.len(),
            r@.len() == i,
            forall|j: int| 0 <= j < i ==> r@[j]@ == v@[j]@,
        decreases v@.len() - i,
    {
        r.push(v[i].clone());
        i += 1;
    }
    assert(views_of(r@) =~= views_of(v@));
    r
}

/// `s` in lower case, as `str::to_lowercase` gives it.
pub uninterp spec fn lowercase(s: Seq<char>) -> Seq<char>;

/// `str::to_lowercase` (std): the Unicode lower-case mapping of `s`. The
/// contract only names the result as a function of `s`.
#[verifier::external_body]
pub(crate) fn to_lowercase(s: &str) -> (r: String)
    ensures
        r@ == lowercase(s@),
{
    s.to_lowercase()
}

} // verus!
