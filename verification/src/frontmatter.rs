//! Page frontmatter: the YAML block at the top of a markdown file, read
//! into a flat map of metadata. Nested mappings are flattened into dotted
//! keys, sequences keep their strings, and a page without a `title` takes
//! the text of its first level-1 heading.

use vstd::prelude::*;
use crate::text::{chars_of, clone_strings, push_all, string_of, views_of};
use crate::markdown::{
    event_views, extract_first_h1, first_h1_from, parse_markdown, parsed_events, strip_bom, without_bom, MdEvent,
    MdEventView,
};

verus! {

#[verifier::external_type_specification]
#[verifier::external_body]
pub struct ExYaml(yaml_rust2::Yaml);

/// A YAML node, as far as frontmatter reading looks at it.
pub enum YamlValue {
    /// A float, kept as written.
    Real(String),
    Integer(i64),
    Str(String),
    Boolean(bool),
    Array(Vec<YamlValue>),
    /// A mapping, its entries in document order.
    Hash(Vec<(YamlValue, YamlValue)>),
    /// An alias, a null, or a bad value.
    Other,
}

/// Converts a `yaml_rust2` node, variant by variant and element by element.
#[verifier::external_body]
fn yaml_value_of(y: &yaml_rust2::Yaml) -> YamlValue {
    match y {
        yaml_rust2::Yaml::Real(s) => YamlValue::Real(s.clone()),
        yaml_rust2::Yaml::Integer(i) => YamlValue::Integer(*i),
        yaml_rust2::Yaml::String(s) => YamlValue::Str(s.clone()),
        yaml_rust2::Yaml::Boolean(b) => YamlValue::Boolean(*b),
        yaml_rust2::Yaml::Array(a) => YamlValue::Array(a.iter().map(yaml_value_of).collect()),
        yaml_rust2::Yaml::Hash(h) => YamlValue::Hash(h.iter().map(|(k, v)| (yaml_value_of(k), yaml_value_of(v))).collect()),
        _ => YamlValue::Other,
    }
}

/// What `yaml_rust2::YamlLoader::load_from_str` gives for `text`: its first
/// document (`None` when it holds none, e.g. only comments), or the
/// parse error's message.
pub uninterp spec fn yaml_loaded(text: Seq<char>) -> Result<Option<YamlValue>, Seq<char>>;

/// A load result as a value.
pub open spec fn yaml_result_view(r: Result<Option<YamlValue>, String>) -> Result<Option<YamlValue>, Seq<char>> {
    match r {
        Ok(d) => Ok(d),
        Err(e) => Err(e@),
    }
}

/// `yaml_rust2::YamlLoader::load_from_str`, keeping the first document and
/// the error's message: the contract names the result as a function of the
/// text.
#[verifier::external_body]
pub(crate) fn load_yaml_doc(text: &str) -> (r: Result<Option<YamlValue>, String>)
    ensures
        yaml_result_view(r) == yaml_loaded(text@),
{
    yaml_rust2::YamlLoader::load_from_str(text)
        .map(|docs| docs.into_iter().next().map(|y| yaml_value_of(&y)))
        .map_err(|e| e.to_string())
}

/// The first document of `text`; `None` when the text does not parse or
/// holds no document at all.
pub open spec fn yaml_first_document(text: Seq<char>) -> Option<YamlValue> {
    match yaml_loaded(text) {
        Ok(d) => d,
        Err(_) => None,
    }
}

/// The first YAML document of `text`: a text that parses to no document at
/// all (only comments) gives `None`, as a parse failure does.
pub(crate) fn load_first_yaml_doc(text: &str) -> (r: Option<YamlValue>)
    ensures
        r == yaml_first_document(text@),
{
    match load_yaml_doc(text) {
        Ok(d) => d,
        Err(_) => None,
    }
}

// ---------------------------------------------------------------------------
// Metadata values and maps
// ---------------------------------------------------------------------------

/// A frontmatter value: a string, a list of strings, an integer or a
/// boolean.
#[derive(Debug, Clone, PartialEq, Eq)]
pub enum MetaValue {
    Text(String),
    List(Vec<String>),
    Integer(i64),
    Boolean(bool),
}

/// The value of a [`MetaValue`].
pub enum MetaView {
    Text(Seq<char>),
    List(Seq<Seq<char>>),
    Integer(i64),
    Boolean(bool),
}

impl View for MetaValue {
    type V = MetaView;

    open spec fn view(&self) -> MetaView {
        match self {
            MetaValue::Text(s) => MetaView::Text(s@),
            MetaValue::List(v) => MetaView::List(views_of(v@)),
            MetaValue::Integer(i) => MetaView::Integer(*i),
            MetaValue::Boolean(b) => MetaView::Boolean(*b),
        }
    }
}

/// Key and value pairs as values.
pub open spec fn pair_views(v: Seq<(String, MetaValue)>) -> Seq<(Seq<char>, MetaView)> {
    v.map_values(|p: (String, MetaValue)| (p.0@, p.1@))
}

/// The map that inserting `pairs` in order makes: a later pair replaces an
/// earlier one with the same key.
pub open spec fn meta_of(pairs: Seq<(Seq<char>, MetaView)>) -> Map<Seq<char>, MetaView>
    decreases pairs.len(),
{
    if pairs.len() == 0 {
        Map::empty()
    } else {
        meta_of(pairs.drop_last()).insert(pairs.last().0, pairs.last().1)
    }
}

/// A frontmatter map, from key to value.
#[derive(Debug)]
pub struct Metadata {
    entries: Vec<(String, MetaValue)>,
}

impl View for Metadata {
    type V = Map<Seq<char>, MetaView>;

    closed spec fn view(&self) -> Map<Seq<char>, MetaView> {
        meta_of(pair_views(self.entries@))
    }
}

/// No key occurs twice.
pub open spec fn keys_distinct(pairs: Seq<(Seq<char>, MetaView)>) -> bool {
    forall|i: int, j: int| 0 <= i < j < pairs.len() ==> pairs[i].0 != pairs[j].0
}

proof fn lemma_meta_of_distinct(pairs: Seq<(Seq<char>, MetaView)>)
    requires
        keys_distinct(pairs),
    ensures
        meta_of(pairs).dom().len() == pairs.len(),
        meta_of(pairs).dom().finite(),
        forall|i: int| 0 <= i < pairs.len() ==> #[trigger] meta_of(pairs).dom().contains(pairs[i].0) && meta_of(pairs)[pairs[i].0]
            == pairs[i].1,
        forall|k: Seq<char>| #[trigger] meta_of(pairs).dom().contains(k) ==> exists|i: int| 0 <= i < pairs.len() && pairs[i].0 == k,
    decreases pairs.len(),
{
    if pairs.len() > 0 {
        let init = pairs.drop_last();
        lemma_meta_of_distinct(init);
        assert(!meta_of(init).dom().contains(pairs.last().0)) by {
            if meta_of(init).dom().contains(pairs.last().0) {
                let i = choose|i: int| 0 <= i < init.len() && init[i].0 == pairs.last().0;
                assert(pairs[i].0 == pairs[pairs.len() - 1].0);
            }
        }
        assert forall|i: int| 0 <= i < pairs.len() implies #[trigger] meta_of(pairs).dom().contains(pairs[i].0)
            && meta_of(pairs)[pairs[i].0] == pairs[i].1 by {
            if i < pairs.len() - 1 {
                assert(init[i] == pairs[i]);
                assert(pairs[i].0 != pairs[pairs.len() - 1].0);
            }
        }
        assert forall|k: Seq<char>| #[trigger] meta_of(pairs).dom().contains(k) implies exists|i: int|
            0 <= i < pairs.len() && pairs[i].0 == k by {
            if k != pairs.last().0 {
                let i = choose|i: int| 0 <= i < init.len() && init[i].0 == k;
                assert(pairs[i].0 == k);
            } else {
                assert(pairs[pairs.len() - 1].0 == k);
            }
        }
    }
}

impl Metadata {
    /// The entries have distinct keys.
    #[verifier::type_invariant]
    spec fn wf(&self) -> bool {
        keys_distinct(pair_views(self.entries@))
    }

    /// An empty map.
    pub fn new() -> (r: Self)
        ensures
            r@ == Map::<Seq<char>, MetaView>::empty(),
    {
        let entries: Vec<(String, MetaValue)> = Vec::new();
        assert(pair_views(entries@) =~= Seq::<(Seq<char>, MetaView)>::empty());
        Metadata { entries }
    }

    /// Sets `key` to `value`, replacing what it held.
    pub fn insert(&mut self, key: String, value: MetaValue)
        ensures
            final(self)@ == old(self)@.insert(key@, value@),
    {
        proof {
            use_type_invariant(&*self);
        }
        let ghost before = pair_views(self.entries@);
        let mut entries: Vec<(String, MetaValue)> = Vec::new();
        std::mem::swap(&mut entries, &mut self.entries);
        let mut i: usize = 0;
        while i < entries.len()
            invariant
                before == pair_views(entries@),
                before == pair_views(old(self).entries@),
                keys_distinct(before),
                i <= entries@.len(),
                forall|j: int| 0 <= j < i ==> #[trigger] before[j].0 != key@,
            decreases entries@.len() - i,
        {
            if entries[i].0 == key {
                let ghost kv = key@;
                let ghost vv = value@;
                entries.set(i, (key, value));
                proof {
                    lemma_meta_of_distinct(before);
                    let after = pair_views(entries@);
                    assert(after =~= before.update(i as int, (kv, vv)));
                    assert(keys_distinct(after)) by {
                        assert forall|a: int, b: int| 0 <= a < b < after.len() implies after[a].0 != after[b].0 by {
                            if a == i {
                                assert(after[a].0 == before[a].0);
                            } else if b == i {
                                assert(after[b].0 == before[b].0);
                            }
                        }
                    }
                    lemma_meta_of_distinct(after);
                    assert(before[i as int].0 == kv);
                    assert(after[i as int].0 == kv);
                    assert(meta_of(before).dom().contains(before[i as int].0));
                    assert(meta_of(after) =~= meta_of(before).insert(kv, vv)) by {
                        assert forall|k: Seq<char>| meta_of(after).dom().contains(k) <==> meta_of(before).insert(kv, vv).dom().contains(k) by {
                            if meta_of(after).dom().contains(k) {
                                let t = choose|t: int| 0 <= t < after.len() && after[t].0 == k;
                                assert(before[t].0 == k);
                                assert(meta_of(before).dom().contains(before[t].0));
                            }
                            if meta_of(before).dom().contains(k) {
                                let t = choose|t: int| 0 <= t < before.len() && before[t].0 == k;
                                assert(after[t].0 == k);
                                assert(meta_of(after).dom().contains(after[t].0));
                            }
                            if k == kv {
                                assert(meta_of(after).dom().contains(after[i as int].0));
                            }
                        }
                        assert forall|k: Seq<char>| meta_of(after).dom().contains(k) implies meta_of(after)[k]
                            == meta_of(before).insert(kv, vv)[k] by {
                            let t = choose|t: int| 0 <= t < after.len() && after[t].0 == k;
                            assert(meta_of(after).dom().contains(after[t].0));
                            if t != i {
                                assert(before[t] == after[t]);
                                assert(meta_of(before).dom().contains(before[t].0));
                                assert(after[t].0 != after[i as int].0);
                            }
                        }
                    }
                }
                self.entries = entries;
                return;
            }
            i += 1;
        }
        let ghost kv = key@;
        let ghost vv = value@;
        entries.push((key, value));
        proof {
            let after = pair_views(entries@);
            assert(after =~= before.push((kv, vv)));
            assert(after.drop_last() =~= before);
            assert(keys_distinct(after)) by {
                assert forall|a: int, b: int| 0 <= a < b < after.len() implies after[a].0 != after[b].0 by {
                    if b == after.len() - 1 {
                        assert(after[a] == before[a]);
                    } else {
                        assert(after[a] == before[a]);
                        assert(after[b] == before[b]);
                    }
                }
            }
        }
        self.entries = entries;
    }

    /// The value under `key`, if any.
    pub fn get(&self, key: &str) -> (r: Option<&MetaValue>)
        ensures
            match r {
                Some(v) => self@.dom().contains(key@) && self@[key@] == v@,
                None => !self@.dom().contains(key@),
            },
    {
        proof {
            use_type_invariant(self);
        }
        let ghost pv = pair_views(self.entries@);
        proof {
            lemma_meta_of_distinct(pv);
        }
        let k = key.to_owned();
        let mut i: usize = 0;
        while i < self.entries.len()
            invariant
                pv == pair_views(self.entries@),
                keys_distinct(pv),
                k@ == key@,
                i <= self.entries@.len(),
                forall|j: int| 0 <= j < i ==> #[trigger] pv[j].0 != key@,
            decreases self.entries@.len() - i,
        {
            if self.entries[i].0 == k {
                proof {
                    lemma_meta_of_distinct(pv);
                }
                assert(pv[i as int].0 == key@);
                return Some(&self.entries[i].1);
            }
            i += 1;
        }
        proof {
            lemma_meta_of_distinct(pv);
            if self@.dom().contains(key@) {
                let t = choose|t: int| 0 <= t < pv.len() && pv[t].0 == key@;
            }
        }
        None
    }

    /// Whether `key` has a value.
    pub fn contains_key(&self, key: &str) -> (r: bool)
        ensures
            r == self@.dom().contains(key@),
    {
        self.get(key).is_some()
    }

    /// The number of keys.
    pub fn len(&self) -> (r: usize)
        ensures
            r == self@.dom().len(),
    {
        proof {
            use_type_invariant(self);
            lemma_meta_of_distinct(pair_views(self.entries@));
        }
        self.entries.len()
    }

    /// Whether no key has a value.
    pub fn is_empty(&self) -> (r: bool)
        ensures
            r == (self@.dom().len() == 0),
    {
        proof {
            use_type_invariant(self);
            lemma_meta_of_distinct(pair_views(self.entries@));
        }
        self.entries.len() == 0
    }

    /// The keys and values, each key once.
    pub fn entries(&self) -> (r: &[(String, MetaValue)])
        ensures
            keys_distinct(pair_views(r@)),
            meta_of(pair_views(r@)) == self@,
    {
        proof {
            use_type_invariant(self);
        }
        self.entries.as_slice()
    }
}

// ---------------------------------------------------------------------------
// From YAML to metadata
// ---------------------------------------------------------------------------

/// The strings among `vals`, in order.
pub open spec fn yaml_strings(vals: Seq<YamlValue>) -> Seq<Seq<char>>
    decreases vals.len(),
{
    if vals.len() == 0 {
        Seq::empty()
    } else {
        yaml_strings(vals.drop_last()) + match vals.last() {
            YamlValue::Str(s) => seq![s@],
            _ => Seq::empty(),
        }
    }
}

/// `pairs` with `key` and a dot put before each key.
pub open spec fn prefixed(key: Seq<char>, pairs: Seq<(Seq<char>, MetaView)>) -> Seq<(Seq<char>, MetaView)> {
    pairs.map_values(|p: (Seq<char>, MetaView)| (key + seq!['.'] + p.0, p.1))
}

/// The key and value pairs a mapping's entries give, in order. Only
/// string keys count. A string, a float (as written), an integer or a
/// boolean is kept as it is; a sequence keeps its strings; a nested
/// mapping gives its own pairs, each key after the outer key and a dot;
/// anything else is dropped.
pub open spec fn flattened(entries: Seq<(YamlValue, YamlValue)>) -> Seq<(Seq<char>, MetaView)>
    decreases entries,
{
    if entries.len() == 0 {
        Seq::empty()
    } else {
        let rest = flattened(entries.drop_last());
        let last = entries[entries.len() - 1];
        match last.0 {
            YamlValue::Str(key) => match last.1 {
                YamlValue::Str(s) => rest.push((key@, MetaView::Text(s@))),
                YamlValue::Array(vals) => rest.push((key@, MetaView::List(yaml_strings(vals@)))),
                YamlValue::Hash(nested) => rest + prefixed(key@, flattened(nested@)),
                YamlValue::Integer(i) => rest.push((key@, MetaView::Integer(i))),
                YamlValue::Real(r) => rest.push((key@, MetaView::Text(r@))),
                YamlValue::Boolean(b) => rest.push((key@, MetaView::Boolean(b))),
                YamlValue::Other => rest,
            },
            _ => rest,
        }
    }
}

/// The strings among `vals`, in order.
fn strings_in(vals: &Vec<YamlValue>) -> (r: Vec<String>)
    ensures
        views_of(r@) == yaml_strings(vals@),
{
    let mut out: Vec<String> = Vec::new();
    let mut i: usize = 0;
    assert(views_of(out@) =~= yaml_strings(vals@.take(0)));
    while i < vals.len()
        invariant
            i <= vals@.len(),
            views_of(out@) == yaml_strings(vals@.take(i as int)),
        decreases vals@.len() - i,
    {
        assert(vals@.take(i + 1).drop_last() =~= vals@.take(i as int));
        assert(vals@.take(i + 1).last() == vals@[i as int]);
        let ghost before = out@;
        match &vals[i] {
            YamlValue::Str(s) => {
                out.push(s.clone());
                assert(views_of(out@) =~= views_of(before) + seq![s@]);
            },
            _ => {
                assert(yaml_strings(vals@.take(i + 1)) =~= yaml_strings(vals@.take(i as int)));
            },
        }
        i += 1;
    }
    assert(vals@.take(vals@.len() as int) =~= vals@);
    out
}

/// A value equal to `v`.
fn copy_meta(v: &MetaValue) -> (r: MetaValue)
    ensures
        r@ == v@,
{
    match v {
        MetaValue::Text(s) => MetaValue::Text(s.clone()),
        MetaValue::List(l) => MetaValue::List(clone_strings(l)),
        MetaValue::Integer(i) => MetaValue::Integer(*i),
        MetaValue::Boolean(b) => MetaValue::Boolean(*b),
    }
}

/// `key`, a dot and `sub`.
fn dotted(key: &str, sub: &str) -> (r: String)
    ensures
        r@ == key@ + seq!['.'] + sub@,
{
    let mut c = chars_of(key);
    c.push('.');
    let d = chars_of(sub);
    push_all(&mut c, &d);
    string_of(&c)
}

/// The key and value pairs of a mapping's entries (see [`flattened`]).
fn flatten_entries(entries: &Vec<(YamlValue, YamlValue)>) -> (r: Vec<(String, MetaValue)>)
    ensures
        pair_views(r@) == flattened(entries@),
    decreases entries@,
{
    let mut out: Vec<(String, MetaValue)> = Vec::new();
    let mut i: usize = 0;
    assert(pair_views(out@) =~= flattened(entries@.take(0)));
    while i < entries.len()
        invariant
            i <= entries@.len(),
            pair_views(out@) == flattened(entries@.take(i as int)),
        decreases entries@.len() - i,
    {
        let ghost rest = pair_views(out@);
        assert(entries@.take(i + 1).drop_last() =~= entries@.take(i as int));
        assert(entries@.take(i + 1)[i as int] == entries@[i as int]);
        let entry = &entries[i];
        match &entry.0 {
            YamlValue::Str(key) => match &entry.1 {
                YamlValue::Str(v) => {
                    out.push((key.clone(), MetaValue::Text(v.clone())));
                    assert(pair_views(out@) =~= rest.push((key@, MetaView::Text(v@))));
                },
                YamlValue::Array(vals) => {
                    let l = strings_in(vals);
                    out.push((key.clone(), MetaValue::List(l)));
                    assert(pair_views(out@) =~= rest.push((key@, MetaView::List(yaml_strings(vals@)))));
                },
                YamlValue::Hash(nested) => {
                    assert(decreases_to!(entries@ => nested@)) by {
                        assert(decreases_to!(entries@ => entries@[i as int]));
                        assert(decreases_to!(entries@[i as int] => entries@[i as int].1));
                        assert(decreases_to!(entries@[i as int].1 => *nested));
                        assert(decreases_to!(*nested => nested@));
                    }
                    let inner = flatten_entries(nested);
                    let ghost iv = pair_views(inner@);
                    let mut j: usize = 0;
                    while j < inner.len()
                        invariant
                            j <= inner@.len(),
                            iv == pair_views(inner@),
                            pair_views(out@) == rest + prefixed(key@, iv.take(j as int)),
                        decreases inner@.len() - j,
                    {
                        let ghost o = pair_views(out@);
                        let k2 = dotted(key.as_str(), inner[j].0.as_str());
                        let v2 = copy_meta(&inner[j].1);
                        out.push((k2, v2));
                        assert(prefixed(key@, iv.take(j + 1)) =~= prefixed(key@, iv.take(j as int)).push(
                            (key@ + seq!['.'] + iv[j as int].0, iv[j as int].1),
                        ));
                        assert(pair_views(out@) =~= o.push((key@ + seq!['.'] + iv[j as int].0, iv[j as int].1)));
                        j += 1;
                    }
                    assert(iv.take(inner@.len() as int) =~= iv);
                },
                YamlValue::Integer(n) => {
                    out.push((key.clone(), MetaValue::Integer(*n)));
                    assert(pair_views(out@) =~= rest.push((key@, MetaView::Integer(*n))));
                },
                YamlValue::Real(r) => {
                    out.push((key.clone(), MetaValue::Text(r.clone())));
                    assert(pair_views(out@) =~= rest.push((key@, MetaView::Text(r@))));
                },
                YamlValue::Boolean(b) => {
                    out.push((key.clone(), MetaValue::Boolean(*b)));
                    assert(pair_views(out@) =~= rest.push((key@, MetaView::Boolean(*b))));
                },
                YamlValue::Other => {},
            },
            _ => {},
        }
        i += 1;
    }
    assert(entries@.take(entries@.len() as int) =~= entries@);
    out
}

/// Converts a YAML mapping to frontmatter metadata: its entries in order,
/// nested mappings flattened into dotted keys (`a: {b: 1}` gives `a.b`);
/// a later key replaces an earlier equal one.
pub fn yaml_hash_to_metadata(hash: &Vec<(YamlValue, YamlValue)>) -> (r: Metadata)
    ensures
        r@ == meta_of(flattened(hash@)),
{
    let pairs = flatten_entries(hash);
    let ghost pv = pair_views(pairs@);
    let mut m = Metadata::new();
    let mut i: usize = 0;
    assert(pv.take(0) =~= Seq::<(Seq<char>, MetaView)>::empty());
    while i < pairs.len()
        invariant
            pv == pair_views(pairs@),
            i <= pairs@.len(),
            m@ == meta_of(pv.take(i as int)),
        decreases pairs@.len() - i,
    {
        assert(pv.take(i + 1).drop_last() =~= pv.take(i as int));
        let k = pairs[i].0.clone();
        let v = copy_meta(&pairs[i].1);
        m.insert(k, v);
        i += 1;
    }
    assert(pv.take(pairs@.len() as int) =~= pv);
    m
}

/// The metadata of a YAML document: a mapping's flattened entries, else
/// nothing.
pub open spec fn yaml_metadata(y: Option<YamlValue>) -> Map<Seq<char>, MetaView> {
    match y {
        Some(YamlValue::Hash(h)) => meta_of(flattened(h@)),
        _ => Map::empty(),
    }
}

/// The frontmatter metadata of a parsed YAML document; a document that is
/// not a mapping, or none, gives an empty map.
pub fn yaml_frontmatter_simplified(y: &Option<YamlValue>) -> (r: Metadata)
    ensures
        r@ == yaml_metadata(*y),
{
    match y {
        Some(YamlValue::Hash(h)) => yaml_hash_to_metadata(h),
        _ => Metadata::new(),
    }
}

// ---------------------------------------------------------------------------
// A page's metadata
// ---------------------------------------------------------------------------

/// The YAML text of a frontmatter block that opens among the first four
/// events, looked for from event `i` on (`in_block` telling whether the
/// block has opened): its first text, unless the block ends first.
pub open spec fn frontmatter_block(ev: Seq<MdEventView>, i: int, in_block: bool) -> Option<Seq<char>>
    decreases 4 - i,
{
    if i < 0 || i >= 4 || i >= ev.len() {
        None
    } else {
        match ev[i] {
            MdEventView::StartMetadata(true) => frontmatter_block(ev, i + 1, true),
            MdEventView::EndMetadata(true) => None,
            MdEventView::Text(t) => if in_block {
                Some(t)
            } else {
                frontmatter_block(ev, i + 1, in_block)
            },
            _ => frontmatter_block(ev, i + 1, in_block),
        }
    }
}

/// The key a page's title stands under.
pub open spec fn title_key() -> Seq<char> {
    seq!['t', 'i', 't', 'l', 'e']
}

/// The metadata of a page whose text (read from the top of its file) is
/// `text`: after a leading byte-order mark, the flattened frontmatter; with
/// no `title` there, the first level-1 heading as the title.
pub open spec fn page_metadata(text: Seq<char>) -> Map<Seq<char>, MetaView> {
    let body = without_bom(text);
    let fm = match frontmatter_block(parsed_events(body, false), 0, false) {
        Some(y) => yaml_metadata(yaml_first_document(y)),
        None => Map::empty(),
    };
    if fm.dom().contains(title_key()) {
        fm
    } else {
        match first_h1_from(parsed_events(body, false), 0, false, Seq::empty()) {
            Some(h) => fm.insert(title_key(), MetaView::Text(h)),
            None => fm,
        }
    }
}

/// The frontmatter text of events parsed with only frontmatter blocks
/// enabled.
fn find_frontmatter_block(events: &Vec<MdEvent>) -> (r: Option<String>)
    ensures
        opt_string_view(r) == frontmatter_block(event_views(events@), 0, false),
{
    let ghost ev = event_views(events@);
    let mut in_block = false;
    let mut i: usize = 0;
    while i < 4 && i < events.len()
        invariant
            ev == event_views(events@),
            i <= 4,
            frontmatter_block(ev, 0, false) == frontmatter_block(ev, i as int, in_block),
        decreases 4 - i,
    {
        match &events[i] {
            MdEvent::StartMetadata(true) => {
                in_block = true;
            },
            MdEvent::EndMetadata(true) => {
                return None;
            },
            MdEvent::Text(t) => {
                if in_block {
                    return Some(t.clone());
                }
            },
            _ => {},
        }
        i += 1;
    }
    None
}

/// The value of an optional string.
pub open spec fn opt_string_view(o: Option<String>) -> Option<Seq<char>> {
    match o {
        Some(s) => Some(s@),
        None => None,
    }
}

/// The metadata of a page from the text at the top of its file: the
/// frontmatter block (after a byte-order mark, if any) read as YAML and
/// flattened, a block that does not parse counting as none; a page without
/// a `title` takes its first level-1 heading.
pub fn extract_metadata_from_text(text: &str) -> (r: Metadata)
    ensures
        r@ == page_metadata(text@),
{
    let body = strip_bom(text);
    let events = parse_markdown(body, false);
    let mut fm = match find_frontmatter_block(&events) {
        Some(y) => {
            let doc = load_first_yaml_doc(y.as_str());
            yaml_frontmatter_simplified(&doc)
        },
        None => Metadata::new(),
    };
    let ghost fm0 = fm@;
    assert(fm0 == match frontmatter_block(parsed_events(body@, false), 0, false) {
        Some(y) => yaml_metadata(yaml_first_document(y)),
        None => Map::<Seq<char>, MetaView>::empty(),
    });
    proof {
        reveal_strlit("title");
        assert("title"@ =~= title_key());
    }
    if !fm.contains_key("title") {
        if let Some(h1) = extract_first_h1(body) {
            fm.insert("title".to_owned(), MetaValue::Text(h1));
        }
    }
    fm
}

} // verus!
