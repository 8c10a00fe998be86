//! A size-bounded cache of page metadata, so rendering many pages does not
//! fetch the same URL twice. Entries are kept in least-recently-used order
//! by the `lru` crate; this module accounts for their size and evicts the
//! least recently used ones while the total exceeds the budget.

use vstd::prelude::*;
use crate::link_index::opt_view;
use crate::oembed::{byte_len, page_info_size, PageInfo};
use std::collections::hash_map::RandomState;

verus! {

/// The most entries the cache holds, whatever their size.
pub const OEMBED_CACHE_MAX_ENTRIES: usize = 10000;

/// A [`PageInfo`] as a value: URL, title, description, image and embed.
pub type PageInfoView = (Seq<char>, Option<Seq<char>>, Option<Seq<char>>, Option<Seq<char>>, Option<Seq<char>>);

/// The value of a [`PageInfo`].
pub open spec fn page_info_view(p: PageInfo) -> PageInfoView {
    (p.url@, opt_view(p.title), opt_view(p.description), opt_view(p.image), opt_view(p.embed_html))
}

/// A cached page info with the bytes it is accounted for.
pub struct OembedCacheEntry {
    info: PageInfo,
    size_bytes: usize,
}

/// A cached entry as a value: the URL it is cached under, the page info,
/// and its accounted size.
pub type CachedPage = (Seq<char>, PageInfoView, usize);

#[verifier::external_type_specification]
#[verifier::external_body]
#[verifier::reject_recursive_types(K)]
#[verifier::reject_recursive_types(V)]
#[verifier::reject_recursive_types(S)]
pub struct ExLruCache<K, V, S>(lru::LruCache<K, V, S>);

/// The entries of an LRU cache, most recently used first.
pub uninterp spec fn lru_entries(c: lru::LruCache<String, OembedCacheEntry, RandomState>) -> Seq<CachedPage>;

/// The number of entries an LRU cache was made to hold.
pub uninterp spec fn lru_capacity(c: lru::LruCache<String, OembedCacheEntry, RandomState>) -> nat;

/// Where the entry cached under `url` is, if there is one.
pub open spec fn entry_index(s: Seq<CachedPage>, url: Seq<char>) -> Option<int>
    decreases s.len(),
{
    if s.len() == 0 {
        None
    } else if s.last().0 == url {
        Some(s.len() - 1)
    } else {
        entry_index(s.drop_last(), url)
    }
}

/// The entries with entry `i` moved to the front.
pub open spec fn promoted(s: Seq<CachedPage>, i: int) -> Seq<CachedPage> {
    seq![s[i]] + s.remove(i)
}

/// The entries after pushing `e` into an LRU cache of capacity `cap`: an
/// entry under the same URL is replaced; otherwise a full cache drops its
/// least recently used entry; the new entry goes to the front.
pub open spec fn pushed(s: Seq<CachedPage>, e: CachedPage, cap: nat) -> Seq<CachedPage> {
    match entry_index(s, e.0) {
        Some(i) => seq![e] + s.remove(i),
        None => if s.len() == cap {
            seq![e] + s.drop_last()
        } else {
            seq![e] + s
        },
    }
}

/// The accounted size of the entries.
pub open spec fn total_size(s: Seq<CachedPage>) -> int
    decreases s.len(),
{
    if s.len() == 0 {
        0
    } else {
        total_size(s.drop_last()) + s.last().2
    }
}

/// The entries with the least recently used ones dropped until their size
/// is within `max`.
pub open spec fn shrunk(s: Seq<CachedPage>, max: int) -> Seq<CachedPage>
    decreases s.len(),
{
    if s.len() == 0 || total_size(s) <= max {
        s
    } else {
        shrunk(s.drop_last(), max)
    }
}

/// No two entries are cached under the same URL.
pub open spec fn urls_distinct(s: Seq<CachedPage>) -> bool {
    forall|i: int, j: int| 0 <= i < j < s.len() ==> s[i].0 != s[j].0
}

/// The bytes an entry for `url` holding `info` is accounted for: the page
/// info, the URL, and the entry itself.
pub open spec fn entry_size(url: Seq<char>, info: PageInfo) -> int {
    page_info_size(info) + byte_len(url) + vstd::layout::size_of::<OembedCacheEntry>()
}

/// `LruCache::with_hasher` (std's `RandomState`): an empty cache made to
/// hold `cap` entries.
#[verifier::external_body]
fn lru_new(cap: usize) -> (r: lru::LruCache<String, OembedCacheEntry, RandomState>)
    requires
        cap > 0,
    ensures
        lru_entries(r) == Seq::<CachedPage>::empty(),
        lru_capacity(r) == cap,
{
    lru::LruCache::with_hasher(std::num::NonZeroUsize::new(cap).unwrap(), RandomState::new())
}

/// `LruCache::get`: the page info cached under `url`, a copy, and that
/// entry moved to the front; nothing changes when there is none.
#[verifier::external_body]
fn lru_get(c: &mut lru::LruCache<String, OembedCacheEntry, RandomState>, url: &str) -> (r: Option<PageInfo>)
    ensures
        lru_capacity(*final(c)) == lru_capacity(*old(c)),
        match entry_index(lru_entries(*old(c)), url@) {
            Some(i) => r matches Some(p) && page_info_view(p) == lru_entries(*old(c))[i].1 && lru_entries(*final(c))
                == promoted(lru_entries(*old(c)), i),
            None => r is None && lru_entries(*final(c)) == lru_entries(*old(c)),
        },
{
    c.get(url).map(|e| e.info.clone())
}

/// `LruCache::push`: the entry goes to the front, replacing one under the
/// same URL or, in a full cache, the least recently used one; the size of
/// the entry it displaced, if any.
#[verifier::external_body]
fn lru_push(c: &mut lru::LruCache<String, OembedCacheEntry, RandomState>, url: String, entry: OembedCacheEntry) -> (r: Option<
    usize,
>)
    ensures
        lru_capacity(*final(c)) == lru_capacity(*old(c)),
        lru_entries(*final(c)) == pushed(
            lru_entries(*old(c)),
            (url@, page_info_view(entry.info), entry.size_bytes),
            lru_capacity(*old(c)),
        ),
        r == match entry_index(lru_entries(*old(c)), url@) {
            Some(i) => Some(lru_entries(*old(c))[i].2),
            None => if lru_entries(*old(c)).len() == lru_capacity(*old(c)) {
                Some(lru_entries(*old(c)).last().2)
            } else {
                None
            },
        },
{
    c.push(url, entry).map(|(_, e)| e.size_bytes)
}

/// `LruCache::pop_lru`: drops the least recently used entry and returns its
/// size; `None` when the cache is empty.
#[verifier::external_body]
fn lru_pop_lru(c: &mut lru::LruCache<String, OembedCacheEntry, RandomState>) -> (r: Option<usize>)
    ensures
        lru_capacity(*final(c)) == lru_capacity(*old(c)),
        lru_entries(*old(c)).len() == 0 ==> r is None && lru_entries(*final(c)) == lru_entries(*old(c)),
        lru_entries(*old(c)).len() > 0 ==> r == Some(lru_entries(*old(c)).last().2) && lru_entries(*final(c))
            == lru_entries(*old(c)).drop_last(),
{
    c.pop_lru().map(|(_, e)| e.size_bytes)
}

/// `LruCache::len`: the number of entries.
#[verifier::external_body]
fn lru_len(c: &lru::LruCache<String, OembedCacheEntry, RandomState>) -> (n: usize)
    ensures
        n == lru_entries(*c).len(),
{
    c.len()
}

/// Page metadata cached by URL, at most a byte budget of it (none with a
/// budget of 0).
pub struct OembedCache {
    cache: lru::LruCache<String, OembedCacheEntry, RandomState>,
    current_size: usize,
    max_size: usize,
}

impl View for OembedCache {
    type V = Seq<CachedPage>;

    /// The cached entries, most recently used first.
    closed spec fn view(&self) -> Seq<CachedPage> {
        lru_entries(self.cache)
    }
}

proof fn lemma_total_concat(a: Seq<CachedPage>, b: Seq<CachedPage>)
    ensures
        total_size(a + b) == total_size(a) + total_size(b),
    decreases b.len(),
{
    if b.len() == 0 {
        assert(a + b =~= a);
    } else {
        lemma_total_concat(a, b.drop_last());
        assert((a + b).drop_last() =~= a + b.drop_last());
    }
}

proof fn lemma_total_nonneg(s: Seq<CachedPage>)
    ensures
        total_size(s) >= 0,
        forall|i: int| 0 <= i < s.len() ==> s[i].2 <= total_size(s),
    decreases s.len(),
{
    if s.len() > 0 {
        lemma_total_nonneg(s.drop_last());
        assert forall|i: int| 0 <= i < s.len() implies s[i].2 <= total_size(s) by {
            if i < s.len() - 1 {
                assert(s.drop_last()[i] == s[i]);
            }
        }
    }
}

proof fn lemma_total_remove(s: Seq<CachedPage>, i: int)
    requires
        0 <= i < s.len(),
    ensures
        total_size(s.remove(i)) == total_size(s) - s[i].2,
{
    let a = s.take(i);
    let b = s.skip(i + 1);
    assert(s =~= a + seq![s[i]] + b);
    assert(s.remove(i) =~= a + b);
    lemma_total_concat(a + seq![s[i]], b);
    lemma_total_concat(a, seq![s[i]]);
    lemma_total_concat(a, b);
    assert(seq![s[i]].drop_last() =~= Seq::<CachedPage>::empty());
    assert(total_size(Seq::<CachedPage>::empty()) == 0);
    assert(total_size(seq![s[i]]) == s[i].2);
}

proof fn lemma_total_front(e: CachedPage, t: Seq<CachedPage>)
    ensures
        total_size(seq![e] + t) == e.2 + total_size(t),
{
    lemma_total_concat(seq![e], t);
    assert(seq![e].drop_last() =~= Seq::<CachedPage>::empty());
    assert(total_size(Seq::<CachedPage>::empty()) == 0);
    assert(total_size(seq![e]) == e.2);
}

proof fn lemma_entry_index(s: Seq<CachedPage>, url: Seq<char>)
    ensures
        entry_index(s, url) matches Some(i) ==> 0 <= i < s.len() && s[i].0 == url,
        entry_index(s, url) is None ==> forall|j: int| 0 <= j < s.len() ==> s[j].0 != url,
    decreases s.len(),
{
    if s.len() > 0 && s.last().0 != url {
        lemma_entry_index(s.drop_last(), url);
        assert forall|j: int| 0 <= j < s.len() - 1 implies s[j] == s.drop_last()[j] by {}
    }
}

/// Moving an entry to the front keeps the URLs distinct and the total size.
proof fn lemma_promoted(s: Seq<CachedPage>, i: int)
    requires
        0 <= i < s.len(),
        urls_distinct(s),
    ensures
        urls_distinct(promoted(s, i)),
        total_size(promoted(s, i)) == total_size(s),
        promoted(s, i).len() == s.len(),
{
    lemma_total_front(s[i], s.remove(i));
    lemma_total_remove(s, i);
    let p = promoted(s, i);
    assert forall|a: int, b: int| 0 <= a < b < p.len() implies p[a].0 != p[b].0 by {
        let ia = if a == 0 { i } else if a - 1 < i { a - 1 } else { a };
        let ib = if b - 1 < i { b - 1 } else { b };
        assert(p[a] == s[ia]);
        assert(p[b] == s[ib]);
    }
}

/// What a push does to the size and the shape of the entries.
proof fn lemma_pushed(s: Seq<CachedPage>, e: CachedPage, cap: nat)
    requires
        urls_distinct(s),
        s.len() <= cap,
        cap > 0,
    ensures
        urls_distinct(pushed(s, e, cap)),
        pushed(s, e, cap).len() <= cap,
        total_size(pushed(s, e, cap)) == total_size(s) + e.2 - match entry_index(s, e.0) {
            Some(i) => s[i].2 as int,
            None => if s.len() == cap {
                s.last().2 as int
            } else {
                0int
            },
        },
{
    lemma_entry_index(s, e.0);
    match entry_index(s, e.0) {
        Some(i) => {
            lemma_total_front(e, s.remove(i));
            lemma_total_remove(s, i);
            let p = seq![e] + s.remove(i);
            assert forall|a: int, b: int| 0 <= a < b < p.len() implies p[a].0 != p[b].0 by {
                let ib = if b - 1 < i { b - 1 } else { b };
                assert(p[b] == s[ib]);
                if a > 0 {
                    let ia = if a - 1 < i { a - 1 } else { a };
                    assert(p[a] == s[ia]);
                }
            }
        },
        None => {
            let t = if s.len() == cap { s.drop_last() } else { s };
            lemma_total_front(e, t);
            if s.len() == cap {
                lemma_total_remove(s, s.len() - 1);
                assert(s.remove(s.len() - 1) =~= s.drop_last());
            }
            let p = seq![e] + t;
            assert forall|a: int, b: int| 0 <= a < b < p.len() implies p[a].0 != p[b].0 by {
                assert(p[b] == s[b - 1]);
                if a > 0 {
                    assert(p[a] == s[a - 1]);
                }
            }
        },
    }
}

/// Shrinking keeps a prefix of the entries whose size is within `max`, or
/// nothing.
proof fn lemma_shrunk(s: Seq<CachedPage>, max: int)
    requires
        urls_distinct(s),
    ensures
        shrunk(s, max).len() <= s.len(),
        shrunk(s, max) == s.take(shrunk(s, max).len() as int),
        urls_distinct(shrunk(s, max)),
        shrunk(s, max).len() == 0 || total_size(shrunk(s, max)) <= max,
    decreases s.len(),
{
    if s.len() == 0 || total_size(s) <= max {
        assert(s.take(s.len() as int) =~= s);
    } else {
        assert(urls_distinct(s.drop_last())) by {
            assert forall|a: int, b: int| 0 <= a < b < s.drop_last().len() implies s.drop_last()[a].0
                != s.drop_last()[b].0 by {
                assert(s.drop_last()[a] == s[a] && s.drop_last()[b] == s[b]);
            }
        }
        lemma_shrunk(s.drop_last(), max);
        let k = shrunk(s, max).len() as int;
        assert(s.drop_last().take(k) =~= s.take(k));
    }
}

impl OembedCache {
    /// The byte budget the cache was made with.
    pub closed spec fn max_size(&self) -> usize {
        self.max_size
    }

    /// The size accounted, the entries distinct, within their count and,
    /// together, within the budget.
    pub closed spec fn wf(&self) -> bool {
        &&& urls_distinct(self@)
        &&& self@.len() <= lru_capacity(self.cache)
        &&& lru_capacity(self.cache) == OEMBED_CACHE_MAX_ENTRIES
        &&& self.current_size == total_size(self@)
        &&& self.current_size <= self.max_size
    }

    /// An empty cache with a budget of `max_size_bytes`; a budget of 0
    /// disables caching.
    pub fn new(max_size_bytes: usize) -> (r: Self)
        ensures
            r.wf(),
            r@ == Seq::<CachedPage>::empty(),
            r.max_size() == max_size_bytes,
    {
        OembedCache { cache: lru_new(OEMBED_CACHE_MAX_ENTRIES), current_size: 0, max_size: max_size_bytes }
    }

    /// The page info cached for `url`, if any, which becomes the most
    /// recently used entry. A disabled cache holds nothing.
    pub fn get(&mut self, url: &str) -> (r: Option<PageInfo>)
        requires
            old(self).wf(),
        ensures
            final(self).wf(),
            final(self).max_size() == old(self).max_size(),
            old(self).max_size() == 0 ==> r is None && final(self)@ == old(self)@,
            old(self).max_size() > 0 ==> match entry_index(old(self)@, url@) {
                Some(i) => r matches Some(p) && page_info_view(p) == old(self)@[i].1 && final(self)@ == promoted(
                    old(self)@,
                    i,
                ),
                None => r is None && final(self)@ == old(self)@,
            },
    {
        if self.max_size == 0 {
            return None;
        }
        proof {
            lemma_entry_index(self@, url@);
            if let Some(i) = entry_index(self@, url@) {
                lemma_promoted(self@, i);
            }
        }
        lru_get(&mut self.cache, url)
    }

    /// Caches `info` under `url`, replacing an entry under the same URL;
    /// then drops least recently used entries while the cache is over its
    /// budget. A disabled cache stays empty.
    pub fn insert(&mut self, url: String, info: PageInfo)
        requires
            old(self).wf(),
            entry_size(url@, info) + old(self).max_size() <= usize::MAX,
        ensures
            final(self).wf(),
            final(self).max_size() == old(self).max_size(),
            final(self)@ == if old(self).max_size() == 0 {
                old(self)@
            } else {
                shrunk(
                    pushed(old(self)@, (url@, page_info_view(info), entry_size(url@, info) as usize), OEMBED_CACHE_MAX_ENTRIES as nat),
                    old(self).max_size() as int,
                )
            },
            total_size(final(self)@) <= final(self).max_size(),
    {
        if self.max_size == 0 {
            return;
        }
        let ghost s0 = self@;
        let size_bytes = info.estimated_size() + url.as_str().len() + core::mem::size_of::<OembedCacheEntry>();
        let ghost e: CachedPage = (url@, page_info_view(info), size_bytes);
        let ghost p = pushed(s0, e, OEMBED_CACHE_MAX_ENTRIES as nat);
        proof {
            lemma_pushed(s0, e, OEMBED_CACHE_MAX_ENTRIES as nat);
            lemma_entry_index(s0, url@);
            lemma_total_nonneg(s0);
            if s0.len() > 0 {
                assert(s0.last() == s0[s0.len() - 1]);
            }
        }
        let displaced = lru_push(&mut self.cache, url, OembedCacheEntry { info, size_bytes });
        let mut current = self.current_size;
        if let Some(prev) = displaced {
            current = current - prev;
        }
        current = current + size_bytes;
        assert(current == total_size(p));
        proof {
            lemma_shrunk(p, self.max_size as int);
        }
        let ghost max0 = self.max_size;
        while current > self.max_size
            invariant
                self.max_size == max0,
                max0 == old(self).max_size,
                current == total_size(lru_entries(self.cache)),
                shrunk(lru_entries(self.cache), self.max_size as int) == shrunk(p, self.max_size as int),
                urls_distinct(lru_entries(self.cache)),
                lru_entries(self.cache).len() <= OEMBED_CACHE_MAX_ENTRIES,
                lru_capacity(self.cache) == OEMBED_CACHE_MAX_ENTRIES,
            ensures
                current <= self.max_size || lru_entries(self.cache).len() == 0,
            decreases lru_entries(self.cache).len(),
        {
            let ghost before = lru_entries(self.cache);
            match lru_pop_lru(&mut self.cache) {
                Some(evicted) => {
                    proof {
                        lemma_total_remove(before, before.len() - 1);
                        assert(before.remove(before.len() - 1) =~= before.drop_last());
                        lemma_total_nonneg(before);
                        assert(urls_distinct(before.drop_last())) by {
                            assert forall|a: int, b: int| 0 <= a < b < before.drop_last().len() implies before.drop_last()[a].0
                                != before.drop_last()[b].0 by {
                                assert(before.drop_last()[a] == before[a] && before.drop_last()[b] == before[b]);
                            }
                        }
                    }
                    current = current - evicted;
                },
                None => {
                    break;
                },
            }
        }
        proof {
            let fin = lru_entries(self.cache);
            lemma_shrunk(fin, self.max_size as int);
            if fin.len() == 0 {
                assert(total_size(fin) == 0);
            }
            assert(shrunk(fin, self.max_size as int) == fin);
        }
        self.current_size = current;
    }

    /// The accounted size of the cached entries, in bytes.
    pub fn current_size(&self) -> (r: usize)
        requires
            self.wf(),
        ensures
            r == total_size(self@),
    {
        self.current_size
    }

    /// The number of cached entries.
    pub fn len(&self) -> (r: usize)
        ensures
            r == self@.len(),
    {
        lru_len(&self.cache)
    }

    /// Whether nothing is cached.
    pub fn is_empty(&self) -> (r: bool)
        ensures
            r == (self@.len() == 0),
    {
        lru_len(&self.cache) == 0
    }
}

/// Shrinking keeps the first entry when that entry alone fits the budget.
proof fn lemma_shrunk_keeps_first(s: Seq<CachedPage>, max: int)
    requires
        s.len() > 0,
        s[0].2 <= max,
    ensures
        shrunk(s, max).len() >= 1,
    decreases s.len(),
{
    if total_size(s) > max {
        if s.len() == 1 {
            assert(s.drop_last() =~= Seq::<CachedPage>::empty());
            assert(total_size(s.drop_last()) == 0);
            assert(s.last() == s[0]);
            assert(total_size(s) == s[0].2);
        } else {
            assert(s.drop_last()[0] == s[0]);
            lemma_shrunk_keeps_first(s.drop_last(), max);
        }
    }
}

/// A read gives back the last write: right after `info` is cached under
/// `url` (the entries `s` of a well-formed cache with budget `max`), a
/// lookup of `url` finds it as the most recently used entry, holding
/// exactly `info`, when its entry alone fits the budget; when it does not,
/// nothing is cached under `url`.
pub proof fn law_cache_read_after_write(s: Seq<CachedPage>, url: Seq<char>, info: PageInfoView, size: usize, max: int)
    requires
        urls_distinct(s),
        s.len() <= OEMBED_CACHE_MAX_ENTRIES,
    ensures
        size <= max ==> entry_index(shrunk(pushed(s, (url, info, size), OEMBED_CACHE_MAX_ENTRIES as nat), max), url)
            == Some(0int) && shrunk(pushed(s, (url, info, size), OEMBED_CACHE_MAX_ENTRIES as nat), max)[0] == (
            url,
            info,
            size,
        ),
        size > max ==> entry_index(shrunk(pushed(s, (url, info, size), OEMBED_CACHE_MAX_ENTRIES as nat), max), url)
            is None,
{
    let e: CachedPage = (url, info, size);
    let cap = OEMBED_CACHE_MAX_ENTRIES as nat;
    let p = pushed(s, e, cap);
    lemma_pushed(s, e, cap);
    lemma_entry_index(s, url);
    assert(p[0] == e);
    lemma_shrunk(p, max);
    let a = shrunk(p, max);
    assert(a == p.take(a.len() as int));
    assert(urls_distinct(a));
    lemma_entry_index(a, url);
    if size <= max {
        lemma_shrunk_keeps_first(p, max);
        assert(a[0] == p[0]);
        if let Some(i) = entry_index(a, url) {
            if i != 0 {
                assert(a[0].0 == a[i].0);
            }
        }
    } else {
        if let Some(i) = entry_index(a, url) {
            assert(a[i] == p[i]);
            if i != 0 {
                assert(p[0].0 == p[i].0);
            }
            lemma_total_nonneg(a);
            assert(a[0].2 <= total_size(a));
        }
    }
}

} // verus!
