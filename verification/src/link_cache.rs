//! Size-bounded caches of the links found for a page: the outbound links a
//! render extracted, and the inbound links a repository scan found. Both
//! are held in `papaya` hash maps; this module accounts for the bytes each
//! entry takes and, when an insert goes over the budget, evicts the oldest
//! entries until the cache fits again.

use vstd::prelude::*;
use crate::link_index::{inbound_views, outbound_views, InboundLink, InboundLinkView, OutboundLink, OutboundLinkView};
use crate::oembed::byte_len;
use std::collections::hash_map::RandomState;

verus! {

#[verifier::external_type_specification]
#[verifier::external_body]
#[verifier::reject_recursive_types(K)]
#[verifier::reject_recursive_types(V)]
#[verifier::reject_recursive_types(S)]
pub struct ExPapayaHashMap<K, V, S>(papaya::HashMap<K, V, S>);

#[verifier::external_type_specification]
#[verifier::external_body]
pub struct ExInstant(std::time::Instant);

// ---------------------------------------------------------------------------
// Accounting over the keys of a map
// ---------------------------------------------------------------------------

/// The summed size of the entries under `keys` in `m`.
pub open spec fn keys_total<V>(keys: Seq<Seq<char>>, m: Map<Seq<char>, V>, size: spec_fn(V) -> int) -> int
    decreases keys.len(),
{
    if keys.len() == 0 {
        0
    } else {
        keys_total(keys.drop_last(), m, size) + size(m[keys.last()])
    }
}

proof fn lemma_keys_total_agree<V>(keys: Seq<Seq<char>>, m1: Map<Seq<char>, V>, m2: Map<Seq<char>, V>, size: spec_fn(V) -> int)
    requires
        forall|i: int| 0 <= i < keys.len() ==> m1[keys[i]] == m2[keys[i]],
    ensures
        keys_total(keys, m1, size) == keys_total(keys, m2, size),
    decreases keys.len(),
{
    if keys.len() > 0 {
        lemma_keys_total_agree(keys.drop_last(), m1, m2, size);
        assert(m1[keys[keys.len() - 1]] == m2[keys[keys.len() - 1]]);
    }
}

proof fn lemma_keys_total_push<V>(keys: Seq<Seq<char>>, m: Map<Seq<char>, V>, k: Seq<char>, v: V, size: spec_fn(V) -> int)
    requires
        !keys.contains(k),
    ensures
        keys_total(keys.push(k), m.insert(k, v), size) == keys_total(keys, m, size) + size(v),
{
    assert(keys.push(k).drop_last() =~= keys);
    assert forall|i: int| 0 <= i < keys.len() implies m.insert(k, v)[keys[i]] == m[keys[i]] by {
        assert(keys[i] != k);
    }
    lemma_keys_total_agree(keys, m.insert(k, v), m, size);
}

proof fn lemma_keys_total_replace<V>(keys: Seq<Seq<char>>, m: Map<Seq<char>, V>, k: Seq<char>, v: V, size: spec_fn(V) -> int)
    requires
        keys.no_duplicates(),
        keys.contains(k),
    ensures
        keys_total(keys, m.insert(k, v), size) == keys_total(keys, m, size) - size(m[k]) + size(v),
    decreases keys.len(),
{
    let d = keys.drop_last();
    if keys.last() == k {
        assert(!d.contains(k)) by {
            if d.contains(k) {
                let j = choose|j: int| 0 <= j < d.len() && d[j] == k;
                assert(keys[j] == keys[keys.len() - 1]);
            }
        }
        assert forall|i: int| 0 <= i < d.len() implies m.insert(k, v)[d[i]] == m[d[i]] by {
            assert(d[i] != k);
        }
        lemma_keys_total_agree(d, m.insert(k, v), m, size);
    } else {
        let j = choose|j: int| 0 <= j < keys.len() && keys[j] == k;
        assert(j < keys.len() - 1);
        assert(d[j] == k);
        assert(d.no_duplicates()) by {
            assert forall|a: int, b: int| 0 <= a < d.len() && 0 <= b < d.len() && a != b implies d[a] != d[b] by {
                assert(d[a] == keys[a] && d[b] == keys[b]);
            }
        }
        lemma_keys_total_replace(d, m, k, v, size);
    }
}

proof fn lemma_keys_total_remove<V>(keys: Seq<Seq<char>>, m: Map<Seq<char>, V>, i: int, size: spec_fn(V) -> int)
    requires
        keys.no_duplicates(),
        0 <= i < keys.len(),
    ensures
        keys_total(keys.remove(i), m.remove(keys[i]), size) == keys_total(keys, m, size) - size(m[keys[i]]),
    decreases keys.len(),
{
    let k = keys[i];
    let d = keys.drop_last();
    if i == keys.len() - 1 {
        assert(keys.remove(i) =~= d);
        assert forall|t: int| 0 <= t < d.len() implies m.remove(k)[d[t]] == m[d[t]] by {
            assert(d[t] == keys[t]);
            assert(keys[t] != keys[i]);
        }
        lemma_keys_total_agree(d, m.remove(k), m, size);
    } else {
        assert(d.no_duplicates()) by {
            assert forall|a: int, b: int| 0 <= a < d.len() && 0 <= b < d.len() && a != b implies d[a] != d[b] by {
                assert(d[a] == keys[a] && d[b] == keys[b]);
            }
        }
        assert(d[i] == k);
        lemma_keys_total_remove(d, m, i, size);
        assert(keys.remove(i).drop_last() =~= d.remove(i));
        assert(keys.remove(i).last() == keys.last());
        assert(keys.last() != k);
        assert(m.remove(k)[keys.last()] == m[keys.last()]);
    }
}

proof fn lemma_keys_total_nonneg<V>(keys: Seq<Seq<char>>, m: Map<Seq<char>, V>, size: spec_fn(V) -> int)
    requires
        forall|v: V| #[trigger] size(v) >= 0,
    ensures
        keys_total(keys, m, size) >= 0,
        forall|i: int| 0 <= i < keys.len() ==> size(m[keys[i]]) <= keys_total(keys, m, size),
    decreases keys.len(),
{
    if keys.len() > 0 {
        lemma_keys_total_nonneg(keys.drop_last(), m, size);
        assert forall|i: int| 0 <= i < keys.len() implies size(m[keys[i]]) <= keys_total(keys, m, size) by {
            if i < keys.len() - 1 {
                assert(keys.drop_last()[i] == keys[i]);
            }
        }
    }
}

// ---------------------------------------------------------------------------
// Outbound links per page
// ---------------------------------------------------------------------------

/// Outbound links cached for a page, with the order they were cached in and
/// the bytes they are accounted for.
pub struct LinkCacheEntry {
    links: Vec<OutboundLink>,
    stamp: u64,
    size_bytes: usize,
}

/// A cached entry as a value: the links, when they were cached (a larger
/// stamp is later), and their accounted size.
pub type CachedLinks = (Seq<OutboundLinkView>, u64, usize);

/// The accounted size of an entry.
pub open spec fn cached_links_size() -> spec_fn(CachedLinks) -> int {
    |e: CachedLinks| e.2 as int
}

/// The entries of a map of cached outbound links.
pub uninterp spec fn link_map_entries(m: papaya::HashMap<String, LinkCacheEntry, RandomState>) -> Map<
    Seq<char>,
    CachedLinks,
>;

/// The bytes the links' strings take, with 32 for each link.
pub open spec fn outbound_bytes(links: Seq<OutboundLinkView>) -> int
    decreases links.len(),
{
    if links.len() == 0 {
        0
    } else {
        let l = links.last();
        outbound_bytes(links.drop_last()) + byte_len(l.to) + byte_len(l.text) + match l.anchor {
            Some(a) => byte_len(a),
            None => 0,
        } + 32
    }
}

/// The bytes an entry for `url` holding `links` is accounted for.
pub open spec fn link_entry_size(url: Seq<char>, links: Seq<OutboundLinkView>) -> int {
    byte_len(url) + outbound_bytes(links) + vstd::layout::size_of::<LinkCacheEntry>()
}

proof fn lemma_outbound_bytes_grow(links: Seq<OutboundLinkView>, i: int)
    requires
        0 <= i <= links.len(),
    ensures
        0 <= outbound_bytes(links.take(i)) <= outbound_bytes(links),
    decreases links.len(),
{
    if i < links.len() {
        lemma_outbound_bytes_grow(links.drop_last(), i);
        assert(links.drop_last().take(i) =~= links.take(i));
    } else {
        assert(links.take(i) =~= links);
        if links.len() > 0 {
            lemma_outbound_bytes_grow(links.drop_last(), links.len() - 1);
            assert(links.drop_last().take(links.len() - 1) =~= links.drop_last());
        }
    }
}

/// The accounted size of an entry for `url` holding `links`.
fn link_entry_size_of(url: &str, links: &Vec<OutboundLink>) -> (r: usize)
    requires
        link_entry_size(url@, outbound_views(links@)) <= usize::MAX,
    ensures
        r == link_entry_size(url@, outbound_views(links@)),
{
    let ghost lv = outbound_views(links@);
    proof {
        lemma_outbound_bytes_grow(lv, 0);
        assert(lv.take(0) =~= Seq::<OutboundLinkView>::empty());
    }
    let mut total: usize = url.len() + core::mem::size_of::<LinkCacheEntry>();
    let mut i: usize = 0;
    while i < links.len()
        invariant
            lv == outbound_views(links@),
            i <= links@.len(),
            link_entry_size(url@, lv) <= usize::MAX,
            total == byte_len(url@) + vstd::layout::size_of::<LinkCacheEntry>() + outbound_bytes(lv.take(i as int)),
        decreases links@.len() - i,
    {
        proof {
            lemma_outbound_bytes_grow(lv, i + 1);
            assert(lv.take(i + 1).drop_last() =~= lv.take(i as int));
            assert(lv.take(i + 1).last() == links@[i as int]@);
        }
        let l = &links[i];
        let anchor_len = match &l.anchor {
            Some(a) => a.as_str().len(),
            None => 0,
        };
        total = total + l.to.as_str().len() + l.text.as_str().len() + anchor_len + 32;
        i += 1;
    }
    assert(lv.take(i as int) =~= lv);
    total
}

/// `papaya::HashMap::new`: an empty map.
#[verifier::external_body]
fn link_map_new() -> (r: papaya::HashMap<String, LinkCacheEntry, RandomState>)
    ensures
        link_map_entries(r) =~= Map::empty(),
{
    papaya::HashMap::new()
}

/// `papaya::HashMap::insert` (pinned): the entry under `url` becomes `e`;
/// the size of the entry it replaced, if any.
#[verifier::external_body]
fn link_map_insert(m: &mut papaya::HashMap<String, LinkCacheEntry, RandomState>, url: String, e: LinkCacheEntry) -> (r:
    Option<usize>)
    ensures
        link_map_entries(*final(m)) == link_map_entries(*old(m)).insert(
            url@,
            (outbound_views(e.links@), e.stamp, e.size_bytes),
        ),
        r == if link_map_entries(*old(m)).dom().contains(url@) {
            Some(link_map_entries(*old(m))[url@].2)
        } else {
            None
        },
{
    m.pin().insert(url, e).map(|old| old.size_bytes)
}

/// `papaya::HashMap::get` (pinned): a copy of the links under `url`.
#[verifier::external_body]
fn link_map_get(m: &papaya::HashMap<String, LinkCacheEntry, RandomState>, url: &str) -> (r: Option<Vec<OutboundLink>>)
    ensures
        match r {
            Some(v) => link_map_entries(*m).dom().contains(url@) && outbound_views(v@) == link_map_entries(*m)[url@].0,
            None => !link_map_entries(*m).dom().contains(url@),
        },
{
    m.pin().get(url).map(|e| e.links.clone())
}

/// `papaya::HashMap::remove` (pinned): drops the entry under `url` and
/// returns its size.
#[verifier::external_body]
fn link_map_remove(m: &mut papaya::HashMap<String, LinkCacheEntry, RandomState>, url: &str) -> (r: Option<usize>)
    ensures
        link_map_entries(*final(m)) == link_map_entries(*old(m)).remove(url@),
        r == if link_map_entries(*old(m)).dom().contains(url@) {
            Some(link_map_entries(*old(m))[url@].2)
        } else {
            None
        },
{
    m.pin().remove(url).map(|e| e.size_bytes)
}

/// `papaya::HashMap::iter` (pinned): each entry once, as its URL, stamp and
/// size, in the map's own order.
#[verifier::external_body]
fn link_map_snapshot(m: &papaya::HashMap<String, LinkCacheEntry, RandomState>) -> (r: Vec<(String, u64, usize)>)
    ensures
        forall|i: int|
            0 <= i < r@.len() ==> link_map_entries(*m).dom().contains(#[trigger] r@[i].0@) && link_map_entries(
                *m,
            )[r@[i].0@].1 == r@[i].1 && link_map_entries(*m)[r@[i].0@].2 == r@[i].2,
        forall|k: Seq<char>| link_map_entries(*m).dom().contains(k) ==> exists|i: int| 0 <= i < r@.len() && #[trigger] r@[i].0@ == k,
        forall|i: int, j: int| 0 <= i < j < r@.len() ==> r@[i].0@ != r@[j].0@,
{
    m.pin().iter().map(|(k, v)| (k.clone(), v.stamp, v.size_bytes)).collect()
}

/// `papaya::HashMap::len`: the number of entries.
#[verifier::external_body]
fn link_map_len(m: &papaya::HashMap<String, LinkCacheEntry, RandomState>) -> (n: usize)
    ensures
        n == link_map_entries(*m).dom().len(),
{
    m.len()
}

/// Outbound links per page URL, at most a byte budget of them (none with a
/// budget of 0).
pub struct LinkCache {
    cache: papaya::HashMap<String, LinkCacheEntry, RandomState>,
    keys: Ghost<Seq<Seq<char>>>,
    current_size: usize,
    max_size: usize,
    next_stamp: u64,
}

impl View for LinkCache {
    type V = Map<Seq<char>, CachedLinks>;

    /// The cached entries by page URL.
    closed spec fn view(&self) -> Map<Seq<char>, CachedLinks> {
        link_map_entries(self.cache)
    }
}

/// Which entries an eviction of at least `target` bytes from `before`
/// leaves as `after`: entries are only removed, never changed; every
/// removed entry is at least as old as every kept one; at least `target`
/// bytes go unless nothing is left; and the last entry removed was needed.
pub open spec fn evicted_oldest<V>(
    before: Map<Seq<char>, V>,
    after: Map<Seq<char>, V>,
    size_before: int,
    size_after: int,
    target: int,
    stamp: spec_fn(V) -> u64,
    size: spec_fn(V) -> int,
) -> bool {
    &&& after.dom().subset_of(before.dom())
    &&& forall|k: Seq<char>| after.dom().contains(k) ==> after[k] == before[k]
    &&& forall|r: Seq<char>, k: Seq<char>|
        before.dom().contains(r) && !after.dom().contains(r) && after.dom().contains(k) ==> stamp(before[r])
            <= stamp(before[k])
    &&& (size_before - size_after >= target || after.dom() == Set::<Seq<char>>::empty())
    &&& (after.dom() == before.dom() || exists|e: Seq<char>|
        {
            &&& before.dom().contains(e)
            &&& !after.dom().contains(e)
            &&& (forall|r: Seq<char>|
                before.dom().contains(r) && !after.dom().contains(r) ==> stamp(before[r]) <= stamp(before[e]))
            &&& size_before - size_after - size(before[e]) < target
        })
}

impl LinkCache {
    /// The byte budget the cache was made with.
    pub closed spec fn max_size(&self) -> usize {
        self.max_size
    }

    /// The bytes the cached entries are accounted for.
    pub closed spec fn size(&self) -> int {
        self.current_size as int
    }

    /// The stamp the next entry cached gets.
    pub closed spec fn next_stamp(&self) -> u64 {
        self.next_stamp
    }

    /// The size accounted for every entry, no entry newer than the next
    /// stamp.
    pub closed spec fn accounted(&self) -> bool {
        &&& self.keys@.no_duplicates()
        &&& forall|k: Seq<char>| self.keys@.contains(k) <==> self@.dom().contains(k)
        &&& self.current_size == keys_total(self.keys@, self@, cached_links_size())
        &&& forall|k: Seq<char>| self@.dom().contains(k) ==> self@[k].1 <= self.next_stamp
    }

    /// Accounted, and within the budget.
    pub closed spec fn wf(&self) -> bool {
        &&& self.accounted()
        &&& self.current_size <= self.max_size
    }

    /// An empty cache with a budget of `max_size_bytes`; a budget of 0
    /// disables caching.
    pub fn new(max_size_bytes: usize) -> (r: Self)
        ensures
            r.wf(),
            r@ == Map::<Seq<char>, CachedLinks>::empty(),
            r.max_size() == max_size_bytes,
            r.size() == 0,
    {
        let r = LinkCache {
            cache: link_map_new(),
            keys: Ghost(Seq::empty()),
            current_size: 0,
            max_size: max_size_bytes,
            next_stamp: 0,
        };
        r
    }

    /// The outbound links cached for `url_path`, if any; a disabled cache
    /// holds nothing.
    pub fn get(&self, url_path: &str) -> (r: Option<Vec<OutboundLink>>)
        ensures
            self.max_size() == 0 ==> r is None,
            self.max_size() > 0 ==> match r {
                Some(v) => self@.dom().contains(url_path@) && outbound_views(v@) == self@[url_path@].0,
                None => !self@.dom().contains(url_path@),
            },
    {
        if self.max_size == 0 {
            return None;
        }
        link_map_get(&self.cache, url_path)
    }

    /// Drops entries, oldest first, until at least `target_bytes` have been
    /// freed or nothing is left.
    fn evict_oldest(&mut self, target_bytes: usize)
        requires
            old(self).accounted(),
        ensures
            final(self).accounted(),
            final(self).max_size() == old(self).max_size(),
            final(self).next_stamp() == old(self).next_stamp(),
            evicted_oldest(
                old(self)@,
                final(self)@,
                old(self).size(),
                final(self).size(),
                target_bytes as int,
                |e: CachedLinks| e.1,
                cached_links_size(),
            ),
    {
        let ghost m0 = self@;
        let ghost size0 = self.current_size as int;
        let snap = link_map_snapshot(&self.cache);
        let n = snap.len();
        let mut removed: Vec<bool> = Vec::new();
        while removed.len() < n
            invariant
                removed@.len() <= n,
                forall|i: int| 0 <= i < removed@.len() ==> !removed@[i],
            decreases n - removed@.len(),
        {
            removed.push(false);
        }
        let mut freed: usize = 0;
        let ghost mut last: Option<int> = None;
        proof {
            lemma_keys_total_nonneg(self.keys@, self@, cached_links_size());
        }
        while freed < target_bytes
            invariant
                n == snap@.len(),
                removed@.len() == n,
                self.accounted(),
                self.max_size == old(self).max_size,
                self.next_stamp == old(self).next_stamp,
                m0 == old(self)@,
                size0 == old(self).size(),
                forall|i: int| 0 <= i < n ==> m0.dom().contains(#[trigger] snap@[i].0@) && m0[snap@[i].0@].1
                    == snap@[i].1 && m0[snap@[i].0@].2 == snap@[i].2,
                forall|k: Seq<char>| m0.dom().contains(k) ==> exists|i: int| 0 <= i < n && #[trigger] snap@[i].0@ == k,
                forall|i: int, j: int| 0 <= i < j < n ==> snap@[i].0@ != snap@[j].0@,
                forall|i: int| 0 <= i < n ==> (self@.dom().contains(#[trigger] snap@[i].0@) <==> !removed@[i]),
                self@.dom().subset_of(m0.dom()),
                forall|k: Seq<char>| self@.dom().contains(k) ==> self@[k] == m0[k],
                forall|i: int, j: int| 0 <= i < n && 0 <= j < n && removed@[i] && !removed@[j] ==> snap@[i].1 <= snap@[j].1,
                freed as int + self.current_size as int == size0,
                last matches Some(l) ==> 0 <= l < n && removed@[l] && freed - snap@[l].2 < target_bytes
                    && forall|i: int| 0 <= i < n && removed@[i] ==> snap@[i].1 <= snap@[l].1,
                last is None ==> forall|i: int| 0 <= i < n ==> !removed@[i],
            ensures
                freed >= target_bytes || self@.dom() == Set::<Seq<char>>::empty(),
            decreases self.keys@.len(),
        {
            // The oldest entry still cached.
            let mut best: Option<usize> = None;
            let mut j: usize = 0;
            while j < n
                invariant
                    n == snap@.len(),
                    removed@.len() == n,
                    j <= n,
                    best matches Some(b) ==> b < j && !removed@[b as int] && forall|t: int|
                        0 <= t < j && !removed@[t] ==> snap@[b as int].1 <= snap@[t].1,
                    best is None ==> forall|t: int| 0 <= t < j ==> removed@[t],
                decreases n - j,
            {
                if !removed[j] {
                    match best {
                        Some(b) => {
                            if snap[j].1 < snap[b].1 {
                                best = Some(j);
                            }
                        },
                        None => {
                            best = Some(j);
                        },
                    }
                }
                j += 1;
            }
            match best {
                None => {
                    proof {
                        assert forall|k: Seq<char>| !self@.dom().contains(k) by {
                            if self@.dom().contains(k) {
                                assert(m0.dom().contains(k));
                                let i = choose|i: int| 0 <= i < n && #[trigger] snap@[i].0@ == k;
                            }
                        }
                        assert(self@.dom() =~= Set::<Seq<char>>::empty());
                    }
                    break;
                },
                Some(b) => {
                    let ghost before = self@;
                    let ghost keys0 = self.keys@;
                    let ghost k = snap@[b as int].0@;
                    proof {
                        assert(self@.dom().contains(k));
                        assert(keys0.contains(k));
                    }
                    let ghost ki = choose|t: int| 0 <= t < keys0.len() && keys0[t] == k;
                    proof {
                        lemma_keys_total_nonneg(keys0, before, cached_links_size());
                        lemma_keys_total_remove(keys0, before, ki, cached_links_size());
                    }
                    let size = link_map_remove(&mut self.cache, snap[b].0.as_str());
                    let size = match size {
                        Some(s) => s,
                        None => 0,
                    };
                    proof {
                        self.keys@ = keys0.remove(ki);
                        assert(size == before[k].2);
                        assert(self@ == before.remove(k));
                        assert forall|x: Seq<char>| self.keys@.contains(x) <==> self@.dom().contains(x) by {
                            if self.keys@.contains(x) {
                                let t = choose|t: int| 0 <= t < self.keys@.len() && self.keys@[t] == x;
                                let t0 = if t < ki { t } else { t + 1 };
                                assert(keys0[t0] == x);
                                assert(t0 != ki);
                                assert(keys0[t0] != keys0[ki]);
                                assert(x != k);
                                assert(keys0.contains(x));
                                assert(before.dom().contains(x));
                            }
                            if self@.dom().contains(x) {
                                assert(x != k);
                                assert(before.dom().contains(x));
                                assert(keys0.contains(x));
                                let t0 = choose|t: int| 0 <= t < keys0.len() && keys0[t] == x;
                                assert(t0 != ki);
                                let t = if t0 < ki { t0 } else { t0 - 1 };
                                assert(self.keys@[t] == x);
                            }
                        }
                        assert(self.keys@.no_duplicates()) by {
                            assert forall|a: int, c: int| 0 <= a < self.keys@.len() && 0 <= c < self.keys@.len() && a != c implies self.keys@[a]
                                != self.keys@[c] by {
                                let a0 = if a < ki { a } else { a + 1 };
                                let c0 = if c < ki { c } else { c + 1 };
                                assert(self.keys@[a] == keys0[a0] && self.keys@[c] == keys0[c0]);
                            }
                        }
                    }
                    self.current_size = self.current_size - size;
                    freed = freed + size;
                    removed.set(b, true);
                    proof {
                        last = Some(b as int);
                    }
                },
            }
        }
        proof {
            let m1 = self@;
            assert forall|r: Seq<char>, k: Seq<char>|
                m0.dom().contains(r) && !m1.dom().contains(r) && m1.dom().contains(k) implies m0[r].1 <= m0[k].1 by {
                let i = choose|i: int| 0 <= i < n && #[trigger] snap@[i].0@ == r;
                let j = choose|j: int| 0 <= j < n && #[trigger] snap@[j].0@ == k;
                assert(removed@[i]);
                assert(!removed@[j]);
            }
            match last {
                None => {
                    assert forall|k: Seq<char>| m0.dom().contains(k) implies m1.dom().contains(k) by {
                        let i = choose|i: int| 0 <= i < n && #[trigger] snap@[i].0@ == k;
                        assert(!removed@[i]);
                    }
                    assert(m1.dom() =~= m0.dom());
                },
                Some(l) => {
                    let e = snap@[l].0@;
                    assert(!m1.dom().contains(e));
                    assert(m0.dom().contains(e));
                    assert forall|r: Seq<char>| m0.dom().contains(r) && !m1.dom().contains(r) implies m0[r].1
                        <= m0[e].1 by {
                        let i = choose|i: int| 0 <= i < n && #[trigger] snap@[i].0@ == r;
                        assert(removed@[i]);
                    }
                    assert(size0 - self.current_size - m0[e].2 < target_bytes);
                },
            }
        }
    }
}

/// The entry [`LinkCache::insert`] adds for `url` holding `links`.
pub open spec fn new_link_entry(c: LinkCache, url: Seq<char>, links: Seq<OutboundLinkView>) -> CachedLinks {
    (links, c.next_stamp(), link_entry_size(url, links) as usize)
}

/// The size of the cache once `e` is cached under `url`, before eviction.
pub open spec fn size_with<V>(m: Map<Seq<char>, V>, size_now: int, url: Seq<char>, e_size: int, size: spec_fn(V) -> int) -> int {
    size_now - (if m.dom().contains(url) { size(m[url]) } else { 0 }) + e_size
}

impl LinkCache {
    /// Caches `links` for `url_path` as its newest entry, replacing what was
    /// cached for it; when the cache goes over its budget, the oldest
    /// entries are evicted until it fits again (see [`evicted_oldest`]). A
    /// disabled cache stays empty.
    pub fn insert(&mut self, url_path: String, links: Vec<OutboundLink>)
        requires
            old(self).wf(),
            link_entry_size(url_path@, outbound_views(links@)) + old(self).max_size() <= usize::MAX,
        ensures
            final(self).wf(),
            final(self).max_size() == old(self).max_size(),
            old(self).max_size() == 0 ==> final(self)@ == old(self)@,
            old(self).max_size() > 0 ==> ({
                let e = new_link_entry(*old(self), url_path@, outbound_views(links@));
                let m1 = old(self)@.insert(url_path@, e);
                let s1 = size_with(old(self)@, old(self).size(), url_path@, e.2 as int, cached_links_size());
                &&& forall|k: Seq<char>| old(self)@.dom().contains(k) ==> old(self)@[k].1 <= e.1
                &&& if s1 <= old(self).max_size() {
                    final(self)@ == m1
                } else {
                    evicted_oldest(m1, final(self)@, s1, final(self).size(), s1 - old(self).max_size(), |x: CachedLinks| x.1, cached_links_size())
                }
            }),
    {
        if self.max_size == 0 {
            return;
        }
        let ghost u = url_path@;
        let ghost lv = outbound_views(links@);
        let size_bytes = link_entry_size_of(url_path.as_str(), &links);
        let stamp = self.next_stamp;
        let ghost m0 = self@;
        let ghost keys0 = self.keys@;
        proof {
            lemma_keys_total_nonneg(keys0, m0, cached_links_size());
            if m0.dom().contains(u) {
                assert(keys0.contains(u));
                let t = choose|t: int| 0 <= t < keys0.len() && keys0[t] == u;
                assert(m0[keys0[t]].2 <= self.current_size);
                lemma_keys_total_replace(keys0, m0, u, (lv, stamp, size_bytes), cached_links_size());
            } else {
                assert(!keys0.contains(u));
                lemma_keys_total_push(keys0, m0, u, (lv, stamp, size_bytes), cached_links_size());
            }
        }
        let replaced = link_map_insert(&mut self.cache, url_path, LinkCacheEntry { links, stamp, size_bytes });
        let mut current = self.current_size;
        if let Some(prev) = replaced {
            current = current - prev;
        }
        current = current + size_bytes;
        proof {
            assert(self@ == m0.insert(u, (lv, stamp, size_bytes)));
            if !m0.dom().contains(u) {
                self.keys@ = keys0.push(u);
                assert forall|a: int, c: int| 0 <= a < self.keys@.len() && 0 <= c < self.keys@.len() && a != c implies self.keys@[a]
                    != self.keys@[c] by {
                    if a == keys0.len() {
                        assert(!keys0.contains(u));
                        assert(keys0[c] != u);
                    } else if c == keys0.len() {
                        assert(keys0[a] != u);
                    }
                }
                assert forall|x: Seq<char>| self.keys@.contains(x) <==> self@.dom().contains(x) by {
                    assert(self@.dom().contains(x) <==> (x == u || m0.dom().contains(x)));
                    assert(keys0.contains(x) <==> m0.dom().contains(x));
                    if self.keys@.contains(x) && x != u {
                        let t = choose|t: int| 0 <= t < self.keys@.len() && self.keys@[t] == x;
                        assert(t < keys0.len());
                        assert(keys0[t] == x);
                        assert(keys0.contains(x));
                    }
                    if self@.dom().contains(x) && x != u {
                        assert(keys0.contains(x));
                        let t = choose|t: int| 0 <= t < keys0.len() && keys0[t] == x;
                        assert(self.keys@[t] == x);
                    }
                    if x == u {
                        assert(self.keys@[keys0.len() as int] == u);
                    }
                }
            }
        }
        self.current_size = current;
        self.next_stamp = if stamp < u64::MAX { stamp + 1 } else { stamp };
        if current > self.max_size {
            let target = current - self.max_size;
            self.evict_oldest(target);
            proof {
                if self@.dom() == Set::<Seq<char>>::empty() {
                    assert(self.keys@.len() == 0) by {
                        if self.keys@.len() > 0 {
                            assert(self.keys@.contains(self.keys@[0]));
                            assert(self@.dom().contains(self.keys@[0]));
                        }
                    }
                }
            }
        }
    }

    /// Drops every entry, e.g. after a move rewrote links across many
    /// pages, and resets the accounted size.
    pub fn invalidate_all(&mut self)
        requires
            old(self).wf(),
        ensures
            final(self).wf(),
            final(self)@ == Map::<Seq<char>, CachedLinks>::empty(),
            final(self).size() == 0,
            final(self).max_size() == old(self).max_size(),
    {
        let snap = link_map_snapshot(&self.cache);
        let mut i: usize = 0;
        while i < snap.len()
            invariant
                i <= snap@.len(),
                forall|t: int| 0 <= t < i ==> !self@.dom().contains(#[trigger] snap@[t].0@),
                forall|k: Seq<char>| self@.dom().contains(k) ==> exists|t: int| i <= t < snap@.len() && #[trigger] snap@[t].0@ == k,
                self.max_size == old(self).max_size,
                forall|k: Seq<char>| self@.dom().contains(k) ==> self@[k].1 <= self.next_stamp,
            decreases snap@.len() - i,
        {
            let ghost before = self@;
            let _ = link_map_remove(&mut self.cache, snap[i].0.as_str());
            proof {
                assert(self@ == before.remove(snap@[i as int].0@));
                assert forall|k: Seq<char>| self@.dom().contains(k) implies exists|t: int| i + 1 <= t < snap@.len() && #[trigger] snap@[t].0@ == k by {
                    assert(before.dom().contains(k));
                    assert(k != snap@[i as int].0@);
                    let t = choose|t: int| i <= t < snap@.len() && #[trigger] snap@[t].0@ == k;
                    assert(t != i);
                }
                assert forall|k: Seq<char>| self@.dom().contains(k) implies self@[k].1 <= self.next_stamp by {
                    assert(before.dom().contains(k));
                    assert(self@[k] == before[k]);
                }
            }
            i += 1;
        }
        proof {
            assert(self@.dom() =~= Set::<Seq<char>>::empty());
            assert(self@ =~= Map::<Seq<char>, CachedLinks>::empty());
            self.keys@ = Seq::empty();
        }
        self.current_size = 0;
    }

    /// The bytes the cached entries are accounted for.
    pub fn current_size(&self) -> (r: usize)
        ensures
            r == self.size(),
    {
        self.current_size
    }

    /// The number of cached pages.
    pub fn len(&self) -> (r: usize)
        ensures
            r == self@.dom().len(),
    {
        link_map_len(&self.cache)
    }

    /// Whether nothing is cached.
    pub fn is_empty(&self) -> (r: bool)
        ensures
            r == (self@.dom().len() == 0),
    {
        link_map_len(&self.cache) == 0
    }
}

// ---------------------------------------------------------------------------
// Inbound links per page
// ---------------------------------------------------------------------------

/// Inbound links found for a page, with when they were found, the order
/// they were cached in and the bytes they are accounted for.
pub struct InboundLinkCacheEntry {
    links: Vec<InboundLink>,
    computed_at: std::time::Instant,
    stamp: u64,
    size_bytes: usize,
}

/// A cached entry as a value: the links, when they were cached (a larger
/// stamp is later), and their accounted size.
pub type CachedInbound = (Seq<InboundLinkView>, u64, usize);

/// The accounted size of an entry.
pub open spec fn cached_inbound_size() -> spec_fn(CachedInbound) -> int {
    |e: CachedInbound| e.2 as int
}

/// The entries of a map of cached inbound links.
pub uninterp spec fn inbound_map_entries(m: papaya::HashMap<String, InboundLinkCacheEntry, RandomState>) -> Map<
    Seq<char>,
    CachedInbound,
>;

/// The bytes the links' strings take, with 32 for each link.
pub open spec fn inbound_bytes(links: Seq<InboundLinkView>) -> int
    decreases links.len(),
{
    if links.len() == 0 {
        0
    } else {
        let l = links.last();
        inbound_bytes(links.drop_last()) + byte_len(l.from) + byte_len(l.text) + match l.anchor {
            Some(a) => byte_len(a),
            None => 0,
        } + 32
    }
}

/// The bytes an entry for `url` holding `links` is accounted for.
pub open spec fn inbound_entry_size(url: Seq<char>, links: Seq<InboundLinkView>) -> int {
    byte_len(url) + inbound_bytes(links) + vstd::layout::size_of::<InboundLinkCacheEntry>()
}

proof fn lemma_inbound_bytes_grow(links: Seq<InboundLinkView>, i: int)
    requires
        0 <= i <= links.len(),
    ensures
        0 <= inbound_bytes(links.take(i)) <= inbound_bytes(links),
    decreases links.len(),
{
    if i < links.len() {
        lemma_inbound_bytes_grow(links.drop_last(), i);
        assert(links.drop_last().take(i) =~= links.take(i));
    } else {
        assert(links.take(i) =~= links);
        if links.len() > 0 {
            lemma_inbound_bytes_grow(links.drop_last(), links.len() - 1);
            assert(links.drop_last().take(links.len() - 1) =~= links.drop_last());
        }
    }
}

/// The accounted size of an entry for `url` holding `links`.
fn inbound_entry_size_of(url: &str, links: &Vec<InboundLink>) -> (r: usize)
    requires
        inbound_entry_size(url@, inbound_views(links@)) <= usize::MAX,
    ensures
        r == inbound_entry_size(url@, inbound_views(links@)),
{
    let ghost lv = inbound_views(links@);
    proof {
        lemma_inbound_bytes_grow(lv, 0);
        assert(lv.take(0) =~= Seq::<InboundLinkView>::empty());
    }
    let mut total: usize = url.len() + core::mem::size_of::<InboundLinkCacheEntry>();
    let mut i: usize = 0;
    while i < links.len()
        invariant
            lv == inbound_views(links@),
            i <= links@.len(),
            inbound_entry_size(url@, lv) <= usize::MAX,
            total == byte_len(url@) + vstd::layout::size_of::<InboundLinkCacheEntry>() + inbound_bytes(lv.take(i as int)),
        decreases links@.len() - i,
    {
        proof {
            lemma_inbound_bytes_grow(lv, i + 1);
            assert(lv.take(i + 1).drop_last() =~= lv.take(i as int));
            assert(lv.take(i + 1).last() == links@[i as int]@);
        }
        let l = &links[i];
        let anchor_len = match &l.anchor {
            Some(a) => a.as_str().len(),
            None => 0,
        };
        total = total + l.from.as_str().len() + l.text.as_str().len() + anchor_len + 32;
        i += 1;
    }
    assert(lv.take(i as int) =~= lv);
    total
}

/// `papaya::HashMap::new`: an empty map.
#[verifier::external_body]
fn inbound_map_new() -> (r: papaya::HashMap<String, InboundLinkCacheEntry, RandomState>)
    ensures
        inbound_map_entries(r) =~= Map::empty(),
{
    papaya::HashMap::new()
}

/// `papaya::HashMap::insert` (pinned): the entry under `url` becomes `e`;
/// the size of the entry it replaced, if any.
#[verifier::external_body]
fn inbound_map_insert(m: &mut papaya::HashMap<String, InboundLinkCacheEntry, RandomState>, url: String, e: InboundLinkCacheEntry) -> (r:
    Option<usize>)
    ensures
        inbound_map_entries(*final(m)) == inbound_map_entries(*old(m)).insert(
            url@,
            (inbound_views(e.links@), e.stamp, e.size_bytes),
        ),
        r == if inbound_map_entries(*old(m)).dom().contains(url@) {
            Some(inbound_map_entries(*old(m))[url@].2)
        } else {
            None
        },
{
    m.pin().insert(url, e).map(|old| old.size_bytes)
}

/// `papaya::HashMap::get` (pinned): a copy of the links under `url` and
/// when they were found.
#[verifier::external_body]
fn inbound_map_get(m: &papaya::HashMap<String, InboundLinkCacheEntry, RandomState>, url: &str) -> (r: Option<
    (Vec<InboundLink>, std::time::Instant),
>)
    ensures
        match r {
            Some(v) => inbound_map_entries(*m).dom().contains(url@) && inbound_views(v.0@) == inbound_map_entries(
                *m,
            )[url@].0,
            None => !inbound_map_entries(*m).dom().contains(url@),
        },
{
    m.pin().get(url).map(|e| (e.links.clone(), e.computed_at))
}

/// `Instant::now` (std). Nothing is stated of the result: it is the clock.
#[verifier::external_body]
fn instant_now() -> std::time::Instant {
    std::time::Instant::now()
}

/// `Instant::elapsed` (std) in whole seconds. Nothing is stated of the
/// result: it depends on the clock.
#[verifier::external_body]
fn seconds_since(t: std::time::Instant) -> u64 {
    t.elapsed().as_secs()
}

/// Cached links `age_seconds` old, while they are younger than
/// `ttl_seconds`.
pub fn links_if_fresh(links: Vec<InboundLink>, age_seconds: u64, ttl_seconds: u64) -> (r: Option<Vec<InboundLink>>)
    ensures
        r == if age_seconds < ttl_seconds {
            Some(links)
        } else {
            None
        },
{
    if age_seconds < ttl_seconds {
        Some(links)
    } else {
        None
    }
}

/// `papaya::HashMap::remove` (pinned): drops the entry under `url` and
/// returns its size.
#[verifier::external_body]
fn inbound_map_remove(m: &mut papaya::HashMap<String, InboundLinkCacheEntry, RandomState>, url: &str) -> (r: Option<usize>)
    ensures
        inbound_map_entries(*final(m)) == inbound_map_entries(*old(m)).remove(url@),
        r == if inbound_map_entries(*old(m)).dom().contains(url@) {
            Some(inbound_map_entries(*old(m))[url@].2)
        } else {
            None
        },
{
    m.pin().remove(url).map(|e| e.size_bytes)
}

/// `papaya::HashMap::iter` (pinned): each entry once, as its URL, stamp and
/// size, in the map's own order.
#[verifier::external_body]
fn inbound_map_snapshot(m: &papaya::HashMap<String, InboundLinkCacheEntry, RandomState>) -> (r: Vec<(String, u64, usize)>)
    ensures
        forall|i: int|
            0 <= i < r@.len() ==> inbound_map_entries(*m).dom().contains(#[trigger] r@[i].0@) && inbound_map_entries(
                *m,
            )[r@[i].0@].1 == r@[i].1 && inbound_map_entries(*m)[r@[i].0@].2 == r@[i].2,
        forall|k: Seq<char>| inbound_map_entries(*m).dom().contains(k) ==> exists|i: int| 0 <= i < r@.len() && #[trigger] r@[i].0@ == k,
        forall|i: int, j: int| 0 <= i < j < r@.len() ==> r@[i].0@ != r@[j].0@,
{
    m.pin().iter().map(|(k, v)| (k.clone(), v.stamp, v.size_bytes)).collect()
}

/// `papaya::HashMap::len`: the number of entries.
#[verifier::external_body]
fn inbound_map_len(m: &papaya::HashMap<String, InboundLinkCacheEntry, RandomState>) -> (n: usize)
    ensures
        n == inbound_map_entries(*m).dom().len(),
{
    m.len()
}

/// The inbound links found for each page URL, valid for a number of
/// seconds, at most a byte budget of them (none with a budget of 0).
pub struct InboundLinkCache {
    cache: papaya::HashMap<String, InboundLinkCacheEntry, RandomState>,
    keys: Ghost<Seq<Seq<char>>>,
    current_size: usize,
    max_size: usize,
    ttl_seconds: u64,
    next_stamp: u64,
}

impl View for InboundLinkCache {
    type V = Map<Seq<char>, CachedInbound>;

    /// The cached entries by page URL.
    closed spec fn view(&self) -> Map<Seq<char>, CachedInbound> {
        inbound_map_entries(self.cache)
    }
}

impl InboundLinkCache {
    /// The byte budget the cache was made with.
    pub closed spec fn max_size(&self) -> usize {
        self.max_size
    }

    /// The bytes the cached entries are accounted for.
    pub closed spec fn size(&self) -> int {
        self.current_size as int
    }

    /// The stamp the next entry cached gets.
    pub closed spec fn next_stamp(&self) -> u64 {
        self.next_stamp
    }

    /// The size accounted for every entry, no entry newer than the next
    /// stamp.
    pub closed spec fn accounted(&self) -> bool {
        &&& self.keys@.no_duplicates()
        &&& forall|k: Seq<char>| self.keys@.contains(k) <==> self@.dom().contains(k)
        &&& self.current_size == keys_total(self.keys@, self@, cached_inbound_size())
        &&& forall|k: Seq<char>| self@.dom().contains(k) ==> self@[k].1 <= self.next_stamp
    }

    /// Accounted, and within the budget.
    pub closed spec fn wf(&self) -> bool {
        &&& self.accounted()
        &&& self.current_size <= self.max_size
    }

    /// The seconds an entry stays valid.
    pub closed spec fn ttl_seconds(&self) -> u64 {
        self.ttl_seconds
    }

    /// An empty cache with a budget of `max_size_bytes` whose entries stay
    /// valid for `ttl_seconds`; a budget of 0 disables caching.
    pub fn new(max_size_bytes: usize, ttl_seconds: u64) -> (r: Self)
        ensures
            r.wf(),
            r@ == Map::<Seq<char>, CachedInbound>::empty(),
            r.max_size() == max_size_bytes,
            r.ttl_seconds() == ttl_seconds,
            r.size() == 0,
    {
        InboundLinkCache {
            cache: inbound_map_new(),
            keys: Ghost(Seq::empty()),
            current_size: 0,
            max_size: max_size_bytes,
            ttl_seconds,
            next_stamp: 0,
        }
    }

    /// The inbound links cached for `url_path` while they are younger than
    /// the time to live (see [`links_if_fresh`]); a disabled cache, or one
    /// whose entries live 0 seconds, holds nothing. How old a cached entry
    /// is, is the clock's to say.
    pub fn get(&self, url_path: &str) -> (r: Option<Vec<InboundLink>>)
        ensures
            self.max_size() == 0 ==> r is None,
            self.ttl_seconds() == 0 ==> r is None,
            r matches Some(v) ==> self@.dom().contains(url_path@) && inbound_views(v@) == self@[url_path@].0,
            !self@.dom().contains(url_path@) ==> r is None,
    {
        if self.max_size == 0 {
            return None;
        }
        match inbound_map_get(&self.cache, url_path) {
            Some((links, computed_at)) => links_if_fresh(links, seconds_since(computed_at), self.ttl_seconds),
            None => None,
        }
    }

    /// Drops entries, oldest first, until at least `target_bytes` have been
    /// freed or nothing is left.
    fn evict_oldest(&mut self, target_bytes: usize)
        requires
            old(self).accounted(),
        ensures
            final(self).accounted(),
            final(self).max_size() == old(self).max_size(),
            final(self).ttl_seconds() == old(self).ttl_seconds(),
            final(self).next_stamp() == old(self).next_stamp(),
            evicted_oldest(
                old(self)@,
                final(self)@,
                old(self).size(),
                final(self).size(),
                target_bytes as int,
                |e: CachedInbound| e.1,
                cached_inbound_size(),
            ),
    {
        let ghost m0 = self@;
        let ghost size0 = self.current_size as int;
        let snap = inbound_map_snapshot(&self.cache);
        let n = snap.len();
        let mut removed: Vec<bool> = Vec::new();
        while removed.len() < n
            invariant
                removed@.len() <= n,
                forall|i: int| 0 <= i < removed@.len() ==> !removed@[i],
            decreases n - removed@.len(),
        {
            removed.push(false);
        }
        let mut freed: usize = 0;
        let ghost mut last: Option<int> = None;
        proof {
            lemma_keys_total_nonneg(self.keys@, self@, cached_inbound_size());
        }
        while freed < target_bytes
            invariant
                n == snap@.len(),
                removed@.len() == n,
                self.accounted(),
                self.max_size == old(self).max_size,
                self.ttl_seconds == old(self).ttl_seconds,
                self.next_stamp == old(self).next_stamp,
                m0 == old(self)@,
                size0 == old(self).size(),
                forall|i: int| 0 <= i < n ==> m0.dom().contains(#[trigger] snap@[i].0@) && m0[snap@[i].0@].1
                    == snap@[i].1 && m0[snap@[i].0@].2 == snap@[i].2,
                forall|k: Seq<char>| m0.dom().contains(k) ==> exists|i: int| 0 <= i < n && #[trigger] snap@[i].0@ == k,
                forall|i: int, j: int| 0 <= i < j < n ==> snap@[i].0@ != snap@[j].0@,
                forall|i: int| 0 <= i < n ==> (self@.dom().contains(#[trigger] snap@[i].0@) <==> !removed@[i]),
                self@.dom().subset_of(m0.dom()),
                forall|k: Seq<char>| self@.dom().contains(k) ==> self@[k] == m0[k],
                forall|i: int, j: int| 0 <= i < n && 0 <= j < n && removed@[i] && !removed@[j] ==> snap@[i].1 <= snap@[j].1,
                freed as int + self.current_size as int == size0,
                last matches Some(l) ==> 0 <= l < n && removed@[l] && freed - snap@[l].2 < target_bytes
                    && forall|i: int| 0 <= i < n && removed@[i] ==> snap@[i].1 <= snap@[l].1,
                last is None ==> forall|i: int| 0 <= i < n ==> !removed@[i],
            ensures
                freed >= target_bytes || self@.dom() == Set::<Seq<char>>::empty(),
            decreases self.keys@.len(),
        {
            // The oldest entry still cached.
            let mut best: Option<usize> = None;
            let mut j: usize = 0;
            while j < n
                invariant
                    n == snap@.len(),
                    removed@.len() == n,
                    j <= n,
                    best matches Some(b) ==> b < j && !removed@[b as int] && forall|t: int|
                        0 <= t < j && !removed@[t] ==> snap@[b as int].1 <= snap@[t].1,
                    best is None ==> forall|t: int| 0 <= t < j ==> removed@[t],
                decreases n - j,
            {
                if !removed[j] {
                    match best {
                        Some(b) => {
                            if snap[j].1 < snap[b].1 {
                                best = Some(j);
                            }
                        },
                        None => {
                            best = Some(j);
                        },
                    }
                }
                j += 1;
            }
            match best {
                None => {
                    proof {
                        assert forall|k: Seq<char>| !self@.dom().contains(k) by {
                            if self@.dom().contains(k) {
                                assert(m0.dom().contains(k));
                                let i = choose|i: int| 0 <= i < n && #[trigger] snap@[i].0@ == k;
                            }
                        }
                        assert(self@.dom() =~= Set::<Seq<char>>::empty());
                    }
                    break;
                },
                Some(b) => {
                    let ghost before = self@;
                    let ghost keys0 = self.keys@;
                    let ghost k = snap@[b as int].0@;
                    proof {
                        assert(self@.dom().contains(k));
                        assert(keys0.contains(k));
                    }
                    let ghost ki = choose|t: int| 0 <= t < keys0.len() && keys0[t] == k;
                    proof {
                        lemma_keys_total_nonneg(keys0, before, cached_inbound_size());
                        lemma_keys_total_remove(keys0, before, ki, cached_inbound_size());
                    }
                    let size = inbound_map_remove(&mut self.cache, snap[b].0.as_str());
                    let size = match size {
                        Some(s) => s,
                        None => 0,
                    };
                    proof {
                        self.keys@ = keys0.remove(ki);
                        assert(size == before[k].2);
                        assert(self@ == before.remove(k));
                        assert forall|x: Seq<char>| self.keys@.contains(x) <==> self@.dom().contains(x) by {
                            if self.keys@.contains(x) {
                                let t = choose|t: int| 0 <= t < self.keys@.len() && self.keys@[t] == x;
                                let t0 = if t < ki { t } else { t + 1 };
                                assert(keys0[t0] == x);
                                assert(t0 != ki);
                                assert(keys0[t0] != keys0[ki]);
                                assert(x != k);
                                assert(keys0.contains(x));
                                assert(before.dom().contains(x));
                            }
                            if self@.dom().contains(x) {
                                assert(x != k);
                                assert(before.dom().contains(x));
                                assert(keys0.contains(x));
                                let t0 = choose|t: int| 0 <= t < keys0.len() && keys0[t] == x;
                                assert(t0 != ki);
                                let t = if t0 < ki { t0 } else { t0 - 1 };
                                assert(self.keys@[t] == x);
                            }
                        }
                        assert(self.keys@.no_duplicates()) by {
                            assert forall|a: int, c: int| 0 <= a < self.keys@.len() && 0 <= c < self.keys@.len() && a != c implies self.keys@[a]
                                != self.keys@[c] by {
                                let a0 = if a < ki { a } else { a + 1 };
                                let c0 = if c < ki { c } else { c + 1 };
                                assert(self.keys@[a] == keys0[a0] && self.keys@[c] == keys0[c0]);
                            }
                        }
                    }
                    self.current_size = self.current_size - size;
                    freed = freed + size;
                    removed.set(b, true);
                    proof {
                        last = Some(b as int);
                    }
                },
            }
        }
        proof {
            let m1 = self@;
            assert forall|r: Seq<char>, k: Seq<char>|
                m0.dom().contains(r) && !m1.dom().contains(r) && m1.dom().contains(k) implies m0[r].1 <= m0[k].1 by {
                let i = choose|i: int| 0 <= i < n && #[trigger] snap@[i].0@ == r;
                let j = choose|j: int| 0 <= j < n && #[trigger] snap@[j].0@ == k;
                assert(removed@[i]);
                assert(!removed@[j]);
            }
            match last {
                None => {
                    assert forall|k: Seq<char>| m0.dom().contains(k) implies m1.dom().contains(k) by {
                        let i = choose|i: int| 0 <= i < n && #[trigger] snap@[i].0@ == k;
                        assert(!removed@[i]);
                    }
                    assert(m1.dom() =~= m0.dom());
                },
                Some(l) => {
                    let e = snap@[l].0@;
                    assert(!m1.dom().contains(e));
                    assert(m0.dom().contains(e));
                    assert forall|r: Seq<char>| m0.dom().contains(r) && !m1.dom().contains(r) implies m0[r].1
                        <= m0[e].1 by {
                        let i = choose|i: int| 0 <= i < n && #[trigger] snap@[i].0@ == r;
                        assert(removed@[i]);
                    }
                    assert(size0 - self.current_size - m0[e].2 < target_bytes);
                },
            }
        }
    }
}

/// The entry [`InboundLinkCache::insert`] adds for `url` holding `links`.
pub open spec fn new_inbound_entry(c: InboundLinkCache, url: Seq<char>, links: Seq<InboundLinkView>) -> CachedInbound {
    (links, c.next_stamp(), inbound_entry_size(url, links) as usize)
}

impl InboundLinkCache {
    /// Caches `links` for `url_path` as its newest entry, found now, replacing what was
    /// cached for it; when the cache goes over its budget, the oldest
    /// entries are evicted until it fits again (see [`evicted_oldest`]). A
    /// disabled cache stays empty.
    pub fn insert(&mut self, url_path: String, links: Vec<InboundLink>)
        requires
            old(self).wf(),
            inbound_entry_size(url_path@, inbound_views(links@)) + old(self).max_size() <= usize::MAX,
        ensures
            final(self).wf(),
            final(self).max_size() == old(self).max_size(),
            final(self).ttl_seconds() == old(self).ttl_seconds(),
            old(self).max_size() == 0 ==> final(self)@ == old(self)@,
            old(self).max_size() > 0 ==> ({
                let e = new_inbound_entry(*old(self), url_path@, inbound_views(links@));
                let m1 = old(self)@.insert(url_path@, e);
                let s1 = size_with(old(self)@, old(self).size(), url_path@, e.2 as int, cached_inbound_size());
                &&& forall|k: Seq<char>| old(self)@.dom().contains(k) ==> old(self)@[k].1 <= e.1
                &&& if s1 <= old(self).max_size() {
                    final(self)@ == m1
                } else {
                    evicted_oldest(m1, final(self)@, s1, final(self).size(), s1 - old(self).max_size(), |x: CachedInbound| x.1, cached_inbound_size())
                }
            }),
    {
        if self.max_size == 0 {
            return;
        }
        let ghost u = url_path@;
        let ghost lv = inbound_views(links@);
        let size_bytes = inbound_entry_size_of(url_path.as_str(), &links);
        let stamp = self.next_stamp;
        let ghost m0 = self@;
        let ghost keys0 = self.keys@;
        proof {
            lemma_keys_total_nonneg(keys0, m0, cached_inbound_size());
            if m0.dom().contains(u) {
                assert(keys0.contains(u));
                let t = choose|t: int| 0 <= t < keys0.len() && keys0[t] == u;
                assert(m0[keys0[t]].2 <= self.current_size);
                lemma_keys_total_replace(keys0, m0, u, (lv, stamp, size_bytes), cached_inbound_size());
            } else {
                assert(!keys0.contains(u));
                lemma_keys_total_push(keys0, m0, u, (lv, stamp, size_bytes), cached_inbound_size());
            }
        }
        let computed_at = instant_now();
        let replaced = inbound_map_insert(
            &mut self.cache,
            url_path,
            InboundLinkCacheEntry { links, computed_at, stamp, size_bytes },
        );
        let mut current = self.current_size;
        if let Some(prev) = replaced {
            current = current - prev;
        }
        current = current + size_bytes;
        proof {
            assert(self@ == m0.insert(u, (lv, stamp, size_bytes)));
            if !m0.dom().contains(u) {
                self.keys@ = keys0.push(u);
                assert forall|a: int, c: int| 0 <= a < self.keys@.len() && 0 <= c < self.keys@.len() && a != c implies self.keys@[a]
                    != self.keys@[c] by {
                    if a == keys0.len() {
                        assert(!keys0.contains(u));
                        assert(keys0[c] != u);
                    } else if c == keys0.len() {
                        assert(keys0[a] != u);
                    }
                }
                assert forall|x: Seq<char>| self.keys@.contains(x) <==> self@.dom().contains(x) by {
                    assert(self@.dom().contains(x) <==> (x == u || m0.dom().contains(x)));
                    assert(keys0.contains(x) <==> m0.dom().contains(x));
                    if self.keys@.contains(x) && x != u {
                        let t = choose|t: int| 0 <= t < self.keys@.len() && self.keys@[t] == x;
                        assert(t < keys0.len());
                        assert(keys0[t] == x);
                        assert(keys0.contains(x));
                    }
                    if self@.dom().contains(x) && x != u {
                        assert(keys0.contains(x));
                        let t = choose|t: int| 0 <= t < keys0.len() && keys0[t] == x;
                        assert(self.keys@[t] == x);
                    }
                    if x == u {
                        assert(self.keys@[keys0.len() as int] == u);
                    }
                }
            }
        }
        self.current_size = current;
        self.next_stamp = if stamp < u64::MAX { stamp + 1 } else { stamp };
        if current > self.max_size {
            let target = current - self.max_size;
            self.evict_oldest(target);
            proof {
                if self@.dom() == Set::<Seq<char>>::empty() {
                    assert(self.keys@.len() == 0) by {
                        if self.keys@.len() > 0 {
                            assert(self.keys@.contains(self.keys@[0]));
                            assert(self@.dom().contains(self.keys@[0]));
                        }
                    }
                }
            }
        }
    }

    /// Drops every entry, e.g. after a move rewrote links across many
    /// pages, and resets the accounted size.
    pub fn invalidate_all(&mut self)
        requires
            old(self).wf(),
        ensures
            final(self).wf(),
            final(self)@ == Map::<Seq<char>, CachedInbound>::empty(),
            final(self).size() == 0,
            final(self).max_size() == old(self).max_size(),
            final(self).ttl_seconds() == old(self).ttl_seconds(),
    {
        let snap = inbound_map_snapshot(&self.cache);
        let mut i: usize = 0;
        while i < snap.len()
            invariant
                i <= snap@.len(),
                forall|t: int| 0 <= t < i ==> !self@.dom().contains(#[trigger] snap@[t].0@),
                forall|k: Seq<char>| self@.dom().contains(k) ==> exists|t: int| i <= t < snap@.len() && #[trigger] snap@[t].0@ == k,
                self.max_size == old(self).max_size,
                self.ttl_seconds == old(self).ttl_seconds,
                forall|k: Seq<char>| self@.dom().contains(k) ==> self@[k].1 <= self.next_stamp,
            decreases snap@.len() - i,
        {
            let ghost before = self@;
            let _ = inbound_map_remove(&mut self.cache, snap[i].0.as_str());
            proof {
                assert(self@ == before.remove(snap@[i as int].0@));
                assert forall|k: Seq<char>| self@.dom().contains(k) implies exists|t: int| i + 1 <= t < snap@.len() && #[trigger] snap@[t].0@ == k by {
                    assert(before.dom().contains(k));
                    assert(k != snap@[i as int].0@);
                    let t = choose|t: int| i <= t < snap@.len() && #[trigger] snap@[t].0@ == k;
                    assert(t != i);
                }
                assert forall|k: Seq<char>| self@.dom().contains(k) implies self@[k].1 <= self.next_stamp by {
                    assert(before.dom().contains(k));
                    assert(self@[k] == before[k]);
                }
            }
            i += 1;
        }
        proof {
            assert(self@.dom() =~= Set::<Seq<char>>::empty());
            assert(self@ =~= Map::<Seq<char>, CachedInbound>::empty());
            self.keys@ = Seq::empty();
        }
        self.current_size = 0;
    }

    /// The bytes the cached entries are accounted for.
    pub fn current_size(&self) -> (r: usize)
        ensures
            r == self.size(),
    {
        self.current_size
    }

    /// The number of cached pages.
    pub fn len(&self) -> (r: usize)
        ensures
            r == self@.dom().len(),
    {
        inbound_map_len(&self.cache)
    }

    /// Whether nothing is cached.
    pub fn is_empty(&self) -> (r: bool)
        ensures
            r == (self@.dom().len() == 0),
    {
        inbound_map_len(&self.cache) == 0
    }
}

} // verus!
