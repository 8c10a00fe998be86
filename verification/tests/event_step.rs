use mbr::event_step::{extract_outbound_links, new_event_state, process_all_events, process_event, EventState};
use mbr::link_transform::LinkTransformConfig;
use mbr::markdown::{markdown_events, rewrite_blocks, MdEvent};
use mbr::media::FIGURE_CLOSE;
use mbr::oembed::PageInfo;

fn config() -> LinkTransformConfig {
    LinkTransformConfig {
        markdown_extensions: vec!["md".to_string()],
        index_file: "index.md".to_string(),
        is_index_file: false,
        url_depth: None,
        current_page_url: String::new(),
    }
}

fn fresh() -> EventState {
    new_event_state(config(), Vec::new())
}

fn run(md: &str, prefetched: Vec<PageInfo>) -> (Vec<MdEvent>, EventState) {
    process_all_events(rewrite_blocks(markdown_events(md)), new_event_state(config(), prefetched)).expect("fits")
}

fn html_of(events: &[MdEvent]) -> String {
    events
        .iter()
        .filter_map(|e| match e {
            MdEvent::Html(h) => Some(h.clone()),
            _ => None,
        })
        .collect()
}

#[test]
fn image_syntax_for_a_video_becomes_an_embed() {
    let (out, state) = process_event(
        MdEvent::StartImage { dest: "demo.mp4".to_string(), title: "Demo".to_string() },
        fresh(),
    );
    match out {
        MdEvent::Html(h) => {
            assert!(h.contains("<video"), "{h}");
            assert!(h.contains("demo.mp4"), "{h}");
        }
        other => panic!("expected an embed, got {other:?}"),
    }
    assert!(state.current_media.is_some());
    let (out, state) = process_event(MdEvent::EndImage, state);
    assert_eq!(out, MdEvent::Html(FIGURE_CLOSE.to_string()));
    assert!(state.current_media.is_none());
}

#[test]
fn regular_image_stays_an_image() {
    let (out, state) = process_event(
        MdEvent::StartImage { dest: "photo.png".to_string(), title: String::new() },
        fresh(),
    );
    // A sibling of a non-index page sits one level up from its URL.
    assert_eq!(out, MdEvent::StartImage { dest: "../photo.png".to_string(), title: String::new() });
    assert!(state.current_media.is_none());
    let (out, _) = process_event(MdEvent::EndImage, state);
    assert_eq!(out, MdEvent::EndImage);
}

#[test]
fn youtube_and_pdf_images_embed_in_a_document() {
    let (out, _) = run("![Talk](https://www.youtube.com/watch?v=abc123)\n\n![Paper](paper.pdf)\n", Vec::new());
    let html = html_of(&out);
    assert!(html.contains("abc123"), "{html}");
    assert!(html.contains("paper.pdf"), "{html}");
}

#[test]
fn links_are_rewritten_and_collected_with_their_text() {
    let (out, state) = run("See [the guide](guide.md#intro) now.", Vec::new());
    assert!(out.iter().any(|e| matches!(e, MdEvent::StartLink { dest, .. } if dest == "../guide/#intro")), "{out:?}");
    assert_eq!(state.collected_links.len(), 1);
    let l = &state.collected_links[0];
    assert_eq!(l.to, "guide.md");
    assert_eq!(l.text, "the guide");
    assert_eq!(l.anchor, Some("#intro".to_string()));
    assert!(l.internal);
}

#[test]
fn words_and_sentences_are_counted_outside_code_and_frontmatter() {
    let (_, state) = run("---\ntitle: Not Counted\n---\n\nHello world. Bye\n\n```\ncode here.\n```\n", Vec::new());
    assert_eq!(state.word_count, 3);
    // "Hello world." ends one sentence; "Bye" gets one at the paragraph's end.
    assert_eq!(state.sentence_count, 2);
    assert!(state.metadata_parsed.is_some());
    assert_eq!(state.metadata_source, Some(true));
    assert!(state.frontmatter_error.is_none());
}

#[test]
fn invalid_frontmatter_keeps_the_error_message() {
    let (_, state) = run("---\ntitle: [unclosed\n---\n\nBody.\n", Vec::new());
    assert!(state.frontmatter_error.is_some());
    assert!(state.metadata_parsed.is_none());
}

#[test]
fn bare_url_becomes_its_card_or_a_plain_link() {
    let (out, _) = run("https://example.com/page\n", Vec::new());
    let html = html_of(&out);
    assert!(html.contains("<a href=\"https://example.com/page\">"), "{html}");
    let card = PageInfo {
        url: "https://example.com/page".to_string(),
        title: Some("Example".to_string()),
        description: None,
        image: None,
        embed_html: None,
    };
    let (out, _) = run("https://example.com/page\n", vec![card]);
    assert!(html_of(&out).contains("Example"));
}

#[test]
fn urls_inside_links_or_code_stay_text() {
    let (out, _) = run("[https://example.com](https://example.com)\n\n```\nhttps://example.com\n```\n", Vec::new());
    assert!(html_of(&out).is_empty(), "{out:?}");
}

#[test]
fn outbound_links_are_kept_once_per_target() {
    let links = extract_outbound_links("[a](/x/#s) and [b](/x/) and [c](https://e.com)", config(), Vec::new())
        .expect("fits");
    assert_eq!(links.len(), 2);
    assert_eq!(links[0].to, "/x/");
    assert_eq!(links[0].text, "a");
    assert_eq!(links[0].anchor, Some("#s".to_string()));
    assert_eq!(links[1].to, "https://e.com");
    assert!(!links[1].internal);
}
