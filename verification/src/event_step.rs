//! The per-event step of rendering a page: images that name media become
//! embeds, link targets are rewritten for the URL convention and the links
//! collected, frontmatter text is read as YAML, bare URLs become link cards,
//! and the words and sentences of the prose are counted.

use vstd::prelude::*;
use crate::frontmatter::{load_yaml_doc, yaml_loaded, YamlValue};
use crate::link_index::{
    is_internal_link, opt_view, split_url_anchor, url_anchor_split, OutboundLink, OutboundLinkView,
};
use crate::link_transform::{transform_link, transformed_link, LinkTransformConfig, LinkTransformConfigView};
use crate::markdown::{
    count_sentence_terminators, count_words, ends_with_terminator, event_views, lemma_word_count_bound, sentence_ends,
    word_count_of, MdEvent, MdEventView,
};
use crate::media::{embed_html, media_embed_for, MediaEmbed, MediaEmbedView, FIGURE_CLOSE};
use crate::oembed::{attr_escaped, page_info_html, text_escaped, PageInfo, LINK_HEAD, LINK_MID, LINK_TAIL};
use crate::page_errors::trim_ws_end;
use crate::text::{chars_of, push_all, starts_with, string_of};
use crate::url_path::is_external;

verus! {

/// What the render pass carries from one event to the next.
pub struct EventState {
    /// How link targets are rewritten.
    pub link_transform_config: LinkTransformConfig,
    /// Link cards already made for the page's bare URLs.
    pub prefetched_oembed: Vec<PageInfo>,
    /// The media embed whose closing tags are still owed.
    pub current_media: Option<MediaEmbed>,
    pub in_metadata: bool,
    /// Inside a link (autolinks included).
    pub in_link: bool,
    /// The kind of the frontmatter block seen: YAML style when true.
    pub metadata_source: Option<bool>,
    /// The frontmatter's first YAML document.
    pub metadata_parsed: Option<YamlValue>,
    /// The links found so far, targets as written.
    pub collected_links: Vec<OutboundLink>,
    /// The target of the link being read, as written.
    pub current_link_dest: Option<String>,
    /// The text of the link being read.
    pub current_link_text: String,
    pub word_count: usize,
    pub in_code_block: bool,
    pub sentence_count: usize,
    /// The last prose text did not end a sentence: the block's end counts
    /// one.
    pub block_needs_sentence_bump: bool,
    /// The message of a frontmatter block that failed to parse.
    pub frontmatter_error: Option<String>,
}

/// The value of an [`EventState`].
pub struct EventStateView {
    pub config: LinkTransformConfigView,
    pub prefetched: Seq<PageInfo>,
    pub current_media: Option<MediaEmbedView>,
    pub in_metadata: bool,
    pub in_link: bool,
    pub metadata_source: Option<bool>,
    pub metadata_parsed: Option<YamlValue>,
    pub collected_links: Seq<OutboundLinkView>,
    pub current_link_dest: Option<Seq<char>>,
    pub current_link_text: Seq<char>,
    pub word_count: int,
    pub in_code_block: bool,
    pub sentence_count: int,
    pub block_needs_sentence_bump: bool,
    pub frontmatter_error: Option<Seq<char>>,
}

/// An optional embed as a value.
pub open spec fn media_view(m: Option<MediaEmbed>) -> Option<MediaEmbedView> {
    match m {
        Some(e) => Some(e@),
        None => None,
    }
}

impl View for EventState {
    type V = EventStateView;

    open spec fn view(&self) -> EventStateView {
        EventStateView {
            config: self.link_transform_config@,
            prefetched: self.prefetched_oembed@,
            current_media: media_view(self.current_media),
            in_metadata: self.in_metadata,
            in_link: self.in_link,
            metadata_source: self.metadata_source,
            metadata_parsed: self.metadata_parsed,
            collected_links: link_views(self.collected_links@),
            current_link_dest: opt_view(self.current_link_dest),
            current_link_text: self.current_link_text@,
            word_count: self.word_count as int,
            in_code_block: self.in_code_block,
            sentence_count: self.sentence_count as int,
            block_needs_sentence_bump: self.block_needs_sentence_bump,
            frontmatter_error: opt_view(self.frontmatter_error),
        }
    }
}

/// The first prefetched card for `url`.
pub open spec fn prefetched_info(pre: Seq<PageInfo>, url: Seq<char>) -> Option<PageInfo>
    decreases pre.len(),
{
    if pre.len() == 0 {
        None
    } else if pre[0].url@ == url {
        Some(pre[0])
    } else {
        prefetched_info(pre.drop_first(), url)
    }
}

/// The HTML of a bare URL with no card: a plain link to it.
pub open spec fn bare_link_html(url: Seq<char>) -> Seq<char> {
    LINK_HEAD@ + attr_escaped(url) + LINK_MID@ + text_escaped(url) + LINK_TAIL@
}

/// A text that is a bare URL: it starts with `http` and has no space.
pub open spec fn is_bare_url_text(t: Seq<char>) -> bool {
    starts_with(t, seq!['h', 't', 't', 'p']) && !t.contains(' ')
}

/// The end of a block that counts a sentence when its last text did not
/// end one: a paragraph, a heading or a list item.
pub open spec fn closes_sentence_block(e: MdEventView) -> bool {
    match e {
        MdEventView::EndParagraph | MdEventView::EndHeading(_) | MdEventView::EndItem => true,
        _ => false,
    }
}

/// The state after reading text `t`: link text gathered inside a link;
/// words and sentences counted outside frontmatter and code; frontmatter
/// text read as YAML (the first document, or the error's message).
pub open spec fn text_state(t: Seq<char>, s: EventStateView) -> EventStateView {
    let s1 = if s.in_link {
        EventStateView { current_link_text: s.current_link_text + t, ..s }
    } else {
        s
    };
    let s2 = if !s.in_metadata && !s.in_code_block {
        EventStateView {
            word_count: s1.word_count + word_count_of(t),
            sentence_count: s1.sentence_count + sentence_ends(t, t.len() as int),
            block_needs_sentence_bump: if trim_ws_end(t).len() > 0 {
                !ends_with_terminator(t)
            } else {
                s1.block_needs_sentence_bump
            },
            ..s1
        }
    } else {
        s1
    };
    if s.in_metadata {
        match yaml_loaded(t) {
            Ok(d) => EventStateView { metadata_parsed: d, ..s2 },
            Err(m) => EventStateView { frontmatter_error: Some(m), ..s2 },
        }
    } else {
        s2
    }
}

/// The event a text `t` becomes: a bare URL outside links, frontmatter and
/// code becomes its prefetched card, or a plain link without one.
pub open spec fn text_event(t: Seq<char>, s: EventStateView) -> MdEventView {
    if !s.in_metadata && !s.in_code_block && !s.in_link && is_bare_url_text(t) {
        MdEventView::Html(
            match prefetched_info(s.prefetched, t) {
                Some(p) => page_info_html(p),
                None => bare_link_html(t),
            },
        )
    } else {
        MdEventView::Text(t)
    }
}

/// One step of the render pass: the event it emits and the state after.
pub open spec fn event_step(e: MdEventView, s: EventStateView) -> (MdEventView, EventStateView) {
    match e {
        MdEventView::StartImage { dest, title } => {
            let u = transformed_link(dest, s.config, false);
            match media_embed_for(u, title) {
                Some(m) => (MdEventView::Html(embed_html(m, true)), EventStateView { current_media: Some(m), ..s }),
                None => (MdEventView::StartImage { dest: u, title }, s),
            }
        },
        MdEventView::EndImage => match s.current_media {
            Some(_) => (MdEventView::Html(FIGURE_CLOSE@), EventStateView { current_media: None, ..s }),
            None => (e, s),
        },
        MdEventView::StartMetadata(y) => (e, EventStateView { metadata_source: Some(y), in_metadata: true, ..s }),
        MdEventView::EndMetadata(_) => (e, EventStateView { in_metadata: false, ..s }),
        MdEventView::StartLink { dest, wiki } => (
            MdEventView::StartLink { dest: transformed_link(dest, s.config, false), wiki },
            EventStateView { in_link: true, current_link_dest: Some(dest), current_link_text: Seq::empty(), ..s },
        ),
        MdEventView::EndLink => match s.current_link_dest {
            Some(d) => (
                e,
                EventStateView {
                    in_link: false,
                    current_link_dest: None,
                    current_link_text: Seq::empty(),
                    collected_links: s.collected_links.push(
                        OutboundLinkView {
                            to: url_anchor_split(d).0,
                            text: s.current_link_text,
                            anchor: url_anchor_split(d).1,
                            internal: !is_external(d),
                        },
                    ),
                    ..s
                },
            ),
            None => (e, EventStateView { in_link: false, ..s }),
        },
        MdEventView::StartCodeBlock => (e, EventStateView { in_code_block: true, ..s }),
        MdEventView::EndCodeBlock => (e, EventStateView { in_code_block: false, ..s }),
        MdEventView::Text(t) => (text_event(t, s), text_state(t, s)),
        _ => if closes_sentence_block(e) && s.block_needs_sentence_bump {
            (e, EventStateView { sentence_count: s.sentence_count + 1, block_needs_sentence_bump: false, ..s })
        } else {
            (e, s)
        },
    }
}

/// The counts and targets fit machine words.
pub open spec fn step_fits(e: MdEventView, s: EventStateView) -> bool {
    match e {
        MdEventView::Text(t) => s.word_count + t.len() <= usize::MAX && s.sentence_count + t.len() <= usize::MAX,
        MdEventView::StartLink { dest, wiki } => dest.len() + 8 <= usize::MAX && (s.config.url_depth matches Some(
            d,
        ) ==> 3 * d + dest.len() + 2 <= usize::MAX),
        MdEventView::StartImage { dest, title } => dest.len() + 8 <= usize::MAX && (s.config.url_depth matches Some(
            d,
        ) ==> 3 * d + dest.len() + 2 <= usize::MAX),
        _ => s.sentence_count < usize::MAX,
    }
}

proof fn lemma_sentence_ends_bound(s: Seq<char>, n: int)
    requires
        0 <= n,
    ensures
        sentence_ends(s, n) <= n,
    decreases n,
{
    if n > 0 {
        lemma_sentence_ends_bound(s, n - 1);
    }
}

/// `a` followed by `b`.
fn concat(a: &str, b: &str) -> (r: String)
    ensures
        r@ == a@ + b@,
{
    let mut v = chars_of(a);
    let w = chars_of(b);
    push_all(&mut v, &w);
    string_of(&v)
}

fn has_space(v: &Vec<char>) -> (r: bool)
    ensures
        r == v@.contains(' '),
{
    let mut i: usize = 0;
    while i < v.len()
        invariant
            i <= v@.len(),
            forall|j: int| 0 <= j < i ==> v@[j] != ' ',
        decreases v@.len() - i,
    {
        if v[i] == ' ' {
            return true;
        }
        i += 1;
    }
    false
}

/// The first prefetched card for `url`.
fn find_prefetched<'a>(pre: &'a Vec<PageInfo>, url: &str) -> (r: Option<&'a PageInfo>)
    ensures
        match r {
            Some(p) => prefetched_info(pre@, url@) == Some(*p),
            None => prefetched_info(pre@, url@) is None,
        },
{
    let u = url.to_owned();
    let mut i: usize = 0;
    assert(pre@.skip(0) =~= pre@);
    while i < pre.len()
        invariant
            u@ == url@,
            i <= pre@.len(),
            prefetched_info(pre@, url@) == prefetched_info(pre@.skip(i as int), url@),
        decreases pre@.len() - i,
    {
        assert(pre@.skip(i as int)[0] == pre@[i as int]);
        assert(pre@.skip(i as int).drop_first() =~= pre@.skip(i + 1));
        if pre[i].url == u {
            return Some(&pre[i]);
        }
        i += 1;
    }
    None
}

fn is_sentence_block_end(e: &MdEvent) -> (r: bool)
    ensures
        r == closes_sentence_block(e@),
{
    match e {
        MdEvent::EndParagraph | MdEvent::EndHeading(_) | MdEvent::EndItem => true,
        _ => false,
    }
}

/// Reads text `t` into the state: link text, counts and frontmatter.
fn read_text(t: &String, state: &mut EventState)
    requires
        old(state)@.word_count + t@.len() <= usize::MAX,
        old(state)@.sentence_count + t@.len() <= usize::MAX,
    ensures
        final(state)@ == text_state(t@, old(state)@),
{
    let ghost s0 = state@;
    if state.in_link {
        state.current_link_text = concat(state.current_link_text.as_str(), t.as_str());
    }
    let ghost s1 = state@;
    assert(s1 == if s0.in_link {
        EventStateView { current_link_text: s0.current_link_text + t@, ..s0 }
    } else {
        s0
    });
    if !state.in_metadata && !state.in_code_block {
        let n = count_words(t.as_str());
        proof {
            lemma_word_count_bound(t@);
            lemma_sentence_ends_bound(t@, t@.len() as int);
        }
        let (sentences, ends) = count_sentence_terminators(t.as_str());
        state.word_count = state.word_count + n;
        state.sentence_count = state.sentence_count + sentences;
        let v = chars_of(t.as_str());
        let mut k: usize = v.len();
        assert(v@.take(k as int) =~= v@);
        while k > 0 && crate::link_transform::is_unicode_whitespace_exec(v[k - 1])
            invariant
                k <= v@.len(),
                trim_ws_end(v@) == trim_ws_end(v@.take(k as int)),
            decreases k,
        {
            assert(v@.take(k as int).drop_last() =~= v@.take(k - 1));
            k -= 1;
        }
        assert(trim_ws_end(v@.take(k as int)) == v@.take(k as int));
        if k > 0 {
            state.block_needs_sentence_bump = !ends;
        }
    }
    if state.in_metadata {
        match load_yaml_doc(t.as_str()) {
            Ok(d) => {
                state.metadata_parsed = d;
            },
            Err(m) => {
                state.frontmatter_error = Some(m);
            },
        }
    }
}

/// One step of the render pass: the event to emit for `event` and the
/// state after it (see [`event_step`]). Images naming video, audio, PDF or
/// YouTube become media embeds; link and image targets are rewritten by
/// [`transform_link`] and each link is collected with its text when it
/// ends; frontmatter text is read as YAML; a bare URL outside links becomes
/// its link card; the words and sentences of prose are counted.
pub fn process_event(event: MdEvent, state: EventState) -> (r: (MdEvent, EventState))
    requires
        step_fits(event@, state@),
    ensures
        (r.0@, r.1@) == event_step(event@, state@),
{
    let mut state = state;
    let ghost s0 = state@;
    let ghost ev = event@;
    match event {
        MdEvent::StartImage { dest, title } => {
            let u = transform_link(dest.as_str(), &state.link_transform_config);
            match MediaEmbed::from_url_and_title(u.as_str(), title.as_str()) {
                Some(media) => {
                    let html = media.to_html(true);
                    state.current_media = Some(media);
                    (MdEvent::Html(html), state)
                },
                None => (MdEvent::StartImage { dest: u, title }, state),
            }
        },
        MdEvent::EndImage => {
            match state.current_media.take() {
                Some(media) => (MdEvent::Html(media.html_close()), state),
                None => (MdEvent::EndImage, state),
            }
        },
        MdEvent::StartMetadata(y) => {
            state.metadata_source = Some(y);
            state.in_metadata = true;
            (MdEvent::StartMetadata(y), state)
        },
        MdEvent::EndMetadata(y) => {
            state.in_metadata = false;
            (MdEvent::EndMetadata(y), state)
        },
        MdEvent::StartLink { dest, wiki } => {
            state.in_link = true;
            let u = transform_link(dest.as_str(), &state.link_transform_config);
            state.current_link_dest = Some(dest);
            state.current_link_text = String::new();
            (MdEvent::StartLink { dest: u, wiki }, state)
        },
        MdEvent::EndLink => {
            state.in_link = false;
            match state.current_link_dest.take() {
                Some(d) => {
                    let (path, anchor) = split_url_anchor(d.as_str());
                    let internal = is_internal_link(d.as_str());
                    let mut text = String::new();
                    std::mem::swap(&mut text, &mut state.current_link_text);
                    let ghost before = state.collected_links@;
                    state.collected_links.push(OutboundLink { to: path, text, anchor, internal });
                    assert(link_views(state.collected_links@) =~= link_views(before).push(state.collected_links@.last()@));
                    assert(state@ == event_step(ev, s0).1);
                    (MdEvent::EndLink, state)
                },
                None => (MdEvent::EndLink, state),
            }
        },
        MdEvent::StartCodeBlock => {
            state.in_code_block = true;
            (MdEvent::StartCodeBlock, state)
        },
        MdEvent::EndCodeBlock => {
            state.in_code_block = false;
            (MdEvent::EndCodeBlock, state)
        },
        MdEvent::Text(t) => {
            let v = chars_of(t.as_str());
            let p = chars_of("http");
            proof {
                reveal_strlit("http");
                assert(p@ =~= seq!['h', 't', 't', 'p']);
            }
            let url_like = crate::text::has_prefix(&v, &p) && !has_space(&v);
            let bare = !state.in_metadata && !state.in_code_block && !state.in_link && url_like;
            assert(bare == (!s0.in_metadata && !s0.in_code_block && !s0.in_link && is_bare_url_text(t@)));
            let out = if bare {
                let html = match find_prefetched(&state.prefetched_oembed, t.as_str()) {
                    Some(p) => p.html(),
                    None => {
                        let p = PageInfo { url: t.clone(), title: None, description: None, image: None, embed_html: None };
                        p.html()
                    },
                };
                MdEvent::Html(html)
            } else {
                MdEvent::Text(t.clone())
            };
            assert(out@ == text_event(t@, s0));
            read_text(&t, &mut state);
            assert(state@ == text_state(t@, s0));
            (out, state)
        },
        other => {
            if is_sentence_block_end(&other) && state.block_needs_sentence_bump {
                state.sentence_count = state.sentence_count + 1;
                state.block_needs_sentence_bump = false;
            }
            (other, state)
        },
    }
}

/// Whether the step over `event` from `state` fits machine words.
pub fn step_fits_exec(event: &MdEvent, state: &EventState) -> (r: bool)
    ensures
        r == step_fits(event@, state@),
{
    match event {
        MdEvent::Text(t) => {
            let n = t.as_str().unicode_len();
            n <= usize::MAX - state.word_count && n <= usize::MAX - state.sentence_count
        },
        MdEvent::StartLink { dest, .. } | MdEvent::StartImage { dest, .. } => {
            let n = dest.as_str().unicode_len();
            if n > usize::MAX - 8 {
                return false;
            }
            match state.link_transform_config.url_depth {
                Some(d) => d <= (usize::MAX - n - 2) / 3,
                None => true,
            }
        },
        _ => state.sentence_count < usize::MAX,
    }
}

/// The render pass over `ev` from `s`: the events emitted and the state
/// after; `None` when some step's counts or targets would not fit machine
/// words.
pub open spec fn run_events(ev: Seq<MdEventView>, s: EventStateView) -> Option<(Seq<MdEventView>, EventStateView)>
    decreases ev.len(),
{
    if ev.len() == 0 {
        Some((Seq::empty(), s))
    } else {
        match run_events(ev.drop_last(), s) {
            Some((out, st)) => if step_fits(ev.last(), st) {
                Some((out.push(event_step(ev.last(), st).0), event_step(ev.last(), st).1))
            } else {
                None
            },
            None => None,
        }
    }
}

/// Runs [`process_event`] over every event, from `state`.
pub fn process_all_events(events: Vec<MdEvent>, state: EventState) -> (r: Option<(Vec<MdEvent>, EventState)>)
    ensures
        match r {
            Some((out, st)) => run_events(event_views(events@), state@) == Some((event_views(out@), st@)),
            None => run_events(event_views(events@), state@) is None,
        },
{
    let ghost ev = event_views(events@);
    let ghost s0 = state@;
    let mut cur = state;
    let mut out: Vec<MdEvent> = Vec::new();
    let ghost all = events@;
    let n = events.len();
    let mut rest = events;
    assert(ev.take(0) =~= Seq::<MdEventView>::empty());
    assert(event_views(out@) =~= Seq::<MdEventView>::empty());
    assert(rest@ =~= all.skip(0));
    let mut i: usize = 0;
    while rest.len() > 0
        invariant
            ev == event_views(all),
            all.len() == n,
            i <= all.len(),
            rest@ == all.skip(i as int),
            run_events(ev.take(i as int), s0) == Some((event_views(out@), cur@)),
            all == events@,
            s0 == state@,
        decreases rest@.len(),
    {
        assert(i < all.len());
        let event = rest.remove(0);
        proof {
            assert(event == all[i as int]);
            assert(all.skip(i as int).drop_first() =~= all.skip(i + 1));
            assert(ev.take(i + 1).drop_last() =~= ev.take(i as int));
            assert(ev.take(i + 1).last() == event@);
        }
        if !step_fits_exec(&event, &cur) {
            proof {
                assert(!step_fits(ev.take(i + 1).last(), cur@));
                assert(run_events(ev.take(i + 1), s0) is None);
                lemma_run_none_extends(ev, s0, i + 1);
            }
            return None;
        }
        let ghost before = event_views(out@);
        let (o, st) = process_event(event, cur);
        out.push(o);
        cur = st;
        assert(event_views(out@) =~= before.push(o@));
        i += 1;
    }
    assert(ev.take(i as int) =~= ev);
    Some((out, cur))
}

/// Once a run fails it stays failed.
proof fn lemma_run_none_extends(ev: Seq<MdEventView>, s: EventStateView, i: int)
    requires
        0 <= i <= ev.len(),
        run_events(ev.take(i), s) is None,
    ensures
        run_events(ev, s) is None,
    decreases ev.len() - i,
{
    if i < ev.len() {
        assert(ev.take(i + 1).drop_last() =~= ev.take(i));
        lemma_run_none_extends(ev, s, i + 1);
    } else {
        assert(ev.take(i) =~= ev);
    }
}

/// A fresh render state for a page: nothing read yet.
pub fn new_event_state(config: LinkTransformConfig, prefetched_oembed: Vec<PageInfo>) -> (r: EventState)
    ensures
        r@ == (EventStateView {
            config: config@,
            prefetched: prefetched_oembed@,
            current_media: None,
            in_metadata: false,
            in_link: false,
            metadata_source: None,
            metadata_parsed: None,
            collected_links: Seq::empty(),
            current_link_dest: None,
            current_link_text: Seq::empty(),
            word_count: 0,
            in_code_block: false,
            sentence_count: 0,
            block_needs_sentence_bump: false,
            frontmatter_error: None,
        }),
{
    let r = EventState {
        link_transform_config: config,
        prefetched_oembed,
        current_media: None,
        in_metadata: false,
        in_link: false,
        metadata_source: None,
        metadata_parsed: None,
        collected_links: Vec::new(),
        current_link_dest: None,
        current_link_text: String::new(),
        word_count: 0,
        in_code_block: false,
        sentence_count: 0,
        block_needs_sentence_bump: false,
        frontmatter_error: None,
    };
    assert(r@.collected_links =~= Seq::<OutboundLinkView>::empty());
    r
}

/// `links` keeping the first link to each target.
pub open spec fn first_per_target(links: Seq<OutboundLinkView>) -> Seq<OutboundLinkView>
    decreases links.len(),
{
    if links.len() == 0 {
        links
    } else {
        let init = first_per_target(links.drop_last());
        if exists|j: int| 0 <= j < links.len() - 1 && #[trigger] links[j].to == links.last().to {
            init
        } else {
            init.push(links.last())
        }
    }
}

/// The outbound links a page's text holds, once per target (the first
/// one), as the render pass collects them with `config` and the cards in
/// `prefetched_oembed`; `None` when the counts would not fit machine
/// words.
pub fn extract_outbound_links(markdown_input: &str, config: LinkTransformConfig, prefetched_oembed: Vec<PageInfo>) -> (r:
    Option<Vec<OutboundLink>>)
    ensures
        match r {
            Some(links) => run_events(
                crate::markdown::rewritten_blocks(crate::markdown::parsed_events(markdown_input@, true)),
                new_state_view(config@, prefetched_oembed@),
            ) matches Some((_, st)) && link_views(links@) == first_per_target(st.collected_links),
            None => run_events(
                crate::markdown::rewritten_blocks(crate::markdown::parsed_events(markdown_input@, true)),
                new_state_view(config@, prefetched_oembed@),
            ) is None,
        },
{
    let ghost cv = config@;
    let ghost pv = prefetched_oembed@;
    let events = crate::markdown::rewrite_blocks(crate::markdown::markdown_events(markdown_input));
    let state = new_event_state(config, prefetched_oembed);
    assert(state@ == new_state_view(cv, pv));
    match process_all_events(events, state) {
        None => None,
        Some((_, st)) => {
            let out = first_link_per_target(&st.collected_links);
            Some(out)
        },
    }
}

/// Whether some link of `out` goes to `to`.
fn has_target(out: &Vec<OutboundLink>, to: &String) -> (r: bool)
    ensures
        r == exists|m: int| 0 <= m < out@.len() && #[trigger] out@[m]@.to == to@,
{
    let mut k: usize = 0;
    while k < out.len()
        invariant
            k <= out@.len(),
            forall|m: int| 0 <= m < k ==> #[trigger] out@[m]@.to != to@,
        decreases out@.len() - k,
    {
        if out[k].to == *to {
            assert(out@[k as int]@.to == to@);
            return true;
        }
        k += 1;
    }
    false
}

/// A link equal to `l`.
fn copy_link(l: &OutboundLink) -> (r: OutboundLink)
    ensures
        r@ == l@,
{
    OutboundLink {
        to: l.to.clone(),
        text: l.text.clone(),
        anchor: match &l.anchor {
            Some(a) => Some(a.clone()),
            None => None,
        },
        internal: l.internal,
    }
}

/// The links of a list as values.
pub open spec fn link_views(v: Seq<OutboundLink>) -> Seq<OutboundLinkView> {
    v.map_values(|l: OutboundLink| l@)
}

/// Some link of `s` goes to `t`.
pub open spec fn target_in(s: Seq<OutboundLinkView>, t: Seq<char>) -> bool {
    exists|k: int| 0 <= k < s.len() && s[k].to == t
}

/// `links` keeping the first link to each target.
pub fn first_link_per_target(links: &Vec<OutboundLink>) -> (r: Vec<OutboundLink>)
    ensures
        link_views(r@) == first_per_target(link_views(links@)),
{
    let ghost lv = link_views(links@);
    let mut out: Vec<OutboundLink> = Vec::new();
    let mut i: usize = 0;
    assert(lv.take(0) =~= Seq::<OutboundLinkView>::empty());
    assert(link_views(out@) =~= Seq::<OutboundLinkView>::empty());
    while i < links.len()
        invariant
            lv == link_views(links@),
            i <= links@.len(),
            link_views(out@) == first_per_target(lv.take(i as int)),
            forall|t: Seq<char>| #[trigger] target_in(link_views(out@), t) == target_in(lv.take(i as int), t),
        decreases links@.len() - i,
    {
        let ghost prefix = lv.take(i + 1);
        let ghost t0 = lv[i as int].to;
        assert(prefix.drop_last() =~= lv.take(i as int));
        assert(prefix.last() == lv[i as int]);
        assert(lv[i as int] == links@[i as int]@);
        let seen = has_target(&out, &links[i].to);
        assert(seen == target_in(link_views(out@), t0)) by {
            if seen {
                let m = choose|m: int| 0 <= m < out@.len() && #[trigger] out@[m]@.to == t0;
                assert(link_views(out@)[m].to == t0);
            }
            if target_in(link_views(out@), t0) {
                let m = choose|m: int| 0 <= m < link_views(out@).len() && link_views(out@)[m].to == t0;
                assert(out@[m]@.to == t0);
            }
        }
        assert(target_in(lv.take(i as int), t0) == exists|j: int| 0 <= j < prefix.len() - 1 && #[trigger] prefix[j].to
            == prefix.last().to) by {
            if target_in(lv.take(i as int), t0) {
                let j = choose|j: int| 0 <= j < lv.take(i as int).len() && lv.take(i as int)[j].to == t0;
                assert(prefix[j] == lv.take(i as int)[j]);
            }
            if exists|j: int| 0 <= j < prefix.len() - 1 && #[trigger] prefix[j].to == prefix.last().to {
                let j = choose|j: int| 0 <= j < prefix.len() - 1 && #[trigger] prefix[j].to == prefix.last().to;
                assert(lv.take(i as int)[j] == prefix[j]);
            }
        }
        let ghost before = link_views(out@);
        if !seen {
            out.push(copy_link(&links[i]));
            assert(link_views(out@) =~= before.push(lv[i as int]));
        }
        assert forall|t: Seq<char>| #[trigger] target_in(link_views(out@), t) == target_in(prefix, t) by {
            assert(target_in(before, t) == target_in(lv.take(i as int), t));
            if target_in(prefix, t) {
                let j = choose|j: int| 0 <= j < prefix.len() && prefix[j].to == t;
                if j < i {
                    assert(lv.take(i as int)[j] == prefix[j]);
                    let k = choose|k: int| 0 <= k < before.len() && before[k].to == t;
                    assert(link_views(out@)[k] == before[k]);
                } else if !seen {
                    assert(link_views(out@)[before.len() as int].to == t);
                } else {
                    let k = choose|k: int| 0 <= k < before.len() && before[k].to == t;
                    assert(link_views(out@)[k] == before[k]);
                }
            }
            if target_in(link_views(out@), t) {
                let k = choose|k: int| 0 <= k < link_views(out@).len() && link_views(out@)[k].to == t;
                if k < before.len() {
                    assert(link_views(out@)[k] == before[k]);
                    let j = choose|j: int| 0 <= j < lv.take(i as int).len() && lv.take(i as int)[j].to == t;
                    assert(prefix[j] == lv.take(i as int)[j]);
                } else {
                    assert(prefix[i as int].to == t);
                }
            }
        }
        i += 1;
    }
    assert(lv.take(i as int) =~= lv);
    out
}

/// The state [`new_event_state`] makes.
pub open spec fn new_state_view(config: LinkTransformConfigView, prefetched: Seq<PageInfo>) -> EventStateView {
    EventStateView {
        config,
        prefetched,
        current_media: None,
        in_metadata: false,
        in_link: false,
        metadata_source: None,
        metadata_parsed: None,
        collected_links: Seq::empty(),
        current_link_dest: None,
        current_link_text: Seq::empty(),
        word_count: 0,
        in_code_block: false,
        sentence_count: 0,
        block_needs_sentence_bump: false,
        frontmatter_error: None,
    }
}

// ---------------------------------------------------------------------------
// Laws
// ---------------------------------------------------------------------------

/// The address an embed points at (a YouTube embed names a video id
/// instead).
pub open spec fn embed_target(m: MediaEmbedView) -> Option<Seq<char>> {
    match m {
        MediaEmbedView::Video { url, .. } => Some(url),
        MediaEmbedView::Audio { url, .. } => Some(url),
        MediaEmbedView::Pdf { url, .. } => Some(url),
        MediaEmbedView::YouTube { .. } => None,
    }
}

/// The target of a link or image start event.
pub open spec fn event_target(e: MdEventView) -> Option<Seq<char>> {
    match e {
        MdEventView::StartLink { dest, .. } => Some(dest),
        MdEventView::StartImage { dest, .. } => Some(dest),
        _ => None,
    }
}

/// The step for the start of an image of `dest` titled `title`.
pub open spec fn image_step(dest: Seq<char>, title: Seq<char>, s: EventStateView) -> (MdEventView, EventStateView) {
    event_step(MdEventView::StartImage { dest, title }, s)
}

/// The step for the start of a link to `dest`.
pub open spec fn link_step(dest: Seq<char>, wiki: bool, s: EventStateView) -> (MdEventView, EventStateView) {
    event_step(MdEventView::StartLink { dest, wiki }, s)
}

/// An image's target is rewritten exactly as a link to the same target is.
/// The image becomes an embed exactly when that rewritten target names
/// media, and then it is the embed of the rewritten target (so a video,
/// audio file or PDF embed points where the link would), emitted as its
/// opening HTML and kept until the image ends; otherwise the image stays an
/// image of the rewritten target.
pub proof fn law_images_follow_link_rewriting(dest: Seq<char>, title: Seq<char>, wiki: bool, s: EventStateView)
    ensures
        event_target(link_step(dest, wiki, s).0) is Some,
        image_step(dest, title, s).0 is StartImage ==> event_target(image_step(dest, title, s).0)
            == event_target(link_step(dest, wiki, s).0) && media_embed_for(
            event_target(link_step(dest, wiki, s).0).unwrap(),
            title,
        ) is None,
        !(image_step(dest, title, s).0 is StartImage) ==> image_step(dest, title, s).1.current_media
            == media_embed_for(event_target(link_step(dest, wiki, s).0).unwrap(), title)
            && image_step(dest, title, s).1.current_media is Some && image_step(dest, title, s).0
            == MdEventView::Html(embed_html(image_step(dest, title, s).1.current_media.unwrap(), true)),
        !(image_step(dest, title, s).0 is StartImage) && embed_target(
            image_step(dest, title, s).1.current_media.unwrap(),
        ) is Some ==> embed_target(image_step(dest, title, s).1.current_media.unwrap()) == event_target(
            link_step(dest, wiki, s).0,
        ),
{
    let t = transformed_link(dest, s.config, false);
    match media_embed_for(t, title) {
        Some(m) => {
            assert(embed_target(m) is Some ==> embed_target(m) == Some(t));
        },
        None => {},
    }
}

/// A link is collected as written, with its text: after the start of a
/// link to `dest`, its text `t` and its end, the state has collected one
/// more link, to `dest` as authored (not as rewritten for the page),
/// split at its anchor, carrying the text `t`, internal unless `dest` leaves
/// the site; and the state is out of the link again.
pub proof fn law_links_are_collected_as_written(dest: Seq<char>, wiki: bool, t: Seq<char>, s: EventStateView)
    ensures
        event_step(MdEventView::EndLink, event_step(MdEventView::Text(t), link_step(dest, wiki, s).1).1).1.collected_links
            == s.collected_links.push(
            OutboundLinkView {
                to: url_anchor_split(dest).0,
                text: t,
                anchor: url_anchor_split(dest).1,
                internal: !is_external(dest),
            },
        ),
        !event_step(MdEventView::EndLink, event_step(MdEventView::Text(t), link_step(dest, wiki, s).1).1).1.in_link,
{
    let s1 = link_step(dest, wiki, s).1;
    assert(s1.current_link_text + t =~= t);
}

/// An embed is closed where its image ends: after an image became an
/// embed, the image's end emits the closing tags and leaves no embed open;
/// a plain image's end (with no embed open before it) passes through.
pub proof fn law_embeds_close_with_their_image(dest: Seq<char>, title: Seq<char>, s: EventStateView)
    ensures
        !(image_step(dest, title, s).0 is StartImage) ==> event_step(MdEventView::EndImage, image_step(dest, title, s).1).0
            == MdEventView::Html(FIGURE_CLOSE@) && event_step(
            MdEventView::EndImage,
            image_step(dest, title, s).1,
        ).1.current_media is None,
        s.current_media is None && image_step(dest, title, s).0 is StartImage ==> event_step(
            MdEventView::EndImage,
            image_step(dest, title, s).1,
        ).0 == MdEventView::EndImage,
{
}

} // verus!
