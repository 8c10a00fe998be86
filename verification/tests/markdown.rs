use mbr::markdown::{
    collect_bare_urls, collect_headings, extract_first_h1, markdown_events, MdEvent,
    build_incomplete_marker_regex, detect_hint_prefix, is_inline_event, mark_incomplete_blocks,
    task_marker_status, HintKind, INCOMPLETE_SPAN_CLOSE, INCOMPLETE_SPAN_OPEN,
    count_words, parse_document, rewrite_blocks,
    cap_fetch_list, count_sentence_terminators, generate_anchor_id, split_extended_marker,
    strip_bom, strip_bom_in_place, AnchorIds, LineIndex, TaskStatus, MAX_OEMBED_FETCHES_PER_DOC,
};

#[test]
fn sentence_terminator_basic_cases() {
    assert_eq!(count_sentence_terminators(""), (0, false));
    assert_eq!(count_sentence_terminators("Hello."), (1, true));
    assert_eq!(count_sentence_terminators("Hi! How are you?"), (2, true));
    // Ellipsis counts once.
    assert_eq!(count_sentence_terminators("Wait..."), (1, true));
    // Mid-sentence period not followed by whitespace shouldn't count.
    assert_eq!(count_sentence_terminators("v1.2.3 is out."), (1, true));
    // Missing trailing terminator.
    assert_eq!(count_sentence_terminators("No ending here"), (0, false));
}

#[test]
fn sentence_terminators_with_trailing_space_and_runs() {
    assert_eq!(count_sentence_terminators("Really?! Yes.  "), (2, true));
    assert_eq!(count_sentence_terminators("a.b"), (0, false));
}

#[test]
fn split_extended_marker_requires_whitespace_after_the_box() {
    assert_eq!(
        split_extended_marker("[-] canceled"),
        Some((TaskStatus::Canceled, "canceled"))
    );
    assert_eq!(
        split_extended_marker("[>]\tmoved"),
        Some((TaskStatus::Canceled, "moved"))
    );
    assert_eq!(split_extended_marker("[-]"), Some((TaskStatus::Canceled, "")));
    for text in ["[-]x", "[x] done", "[ ] open", "[?] what", "prose"] {
        assert_eq!(split_extended_marker(text), None, "for {text:?}");
    }
}

#[test]
fn strip_bom_leaves_bom_less_input_alone() {
    assert_eq!(strip_bom("# Heading"), "# Heading");
    assert_eq!(strip_bom("\u{feff}# Heading"), "# Heading");
    let mut owned = String::from("\u{feff}---\n");
    strip_bom_in_place(&mut owned);
    assert_eq!(owned, "---\n");
    let mut plain = String::from("---\n");
    strip_bom_in_place(&mut plain);
    assert_eq!(plain, "---\n");
}

#[test]
fn generate_anchor_id_basic_slugification() {
    let mut anchor_ids = AnchorIds::new();
    assert_eq!(generate_anchor_id("Hello World", &mut anchor_ids), "hello-world");
    assert_eq!(
        generate_anchor_id("Ünïcode Heading", &mut anchor_ids),
        "ünïcode-heading"
    );
    // Punctuation is dropped and can leave a doubled separator.
    assert_eq!(
        generate_anchor_id("Hello, World!", &mut anchor_ids),
        "hello--world"
    );
}

#[test]
fn generate_anchor_id_never_collides() {
    let mut anchor_ids = AnchorIds::new();
    let headings = ["Step 1", "Step 1", "Step 1-2", "", "", "Ünïcode Ünïcode"];
    let ids: Vec<String> = headings
        .iter()
        .map(|h| generate_anchor_id(h, &mut anchor_ids))
        .collect();
    for (i, a) in ids.iter().enumerate() {
        for b in &ids[i + 1..] {
            assert_ne!(a, b, "duplicate anchor ids: {ids:?}");
        }
    }
    assert_eq!(ids[0], "step-1");
    assert_eq!(ids[1], "step-1-2");
    assert_eq!(ids[2], "step-1-2-2");
    assert_eq!(ids[3], "heading");
    assert_eq!(ids[4], "heading-2");
}

#[test]
fn anchor_suffixes_count_past_ten() {
    let mut anchor_ids = AnchorIds::new();
    let mut last = String::new();
    for _ in 0..12 {
        last = generate_anchor_id("Notes", &mut anchor_ids);
    }
    assert_eq!(last, "notes-12");
}

#[test]
fn cap_fetch_list_limits_and_is_deterministic() {
    let urls: Vec<String> = (0..150)
        .map(|i| format!("https://example.com/{i:03}"))
        .collect();

    let mut expected = urls.clone();
    expected.sort_unstable();
    expected.truncate(MAX_OEMBED_FETCHES_PER_DOC);

    assert_eq!(cap_fetch_list(urls.clone()).len(), MAX_OEMBED_FETCHES_PER_DOC);
    assert_eq!(cap_fetch_list(urls.clone()), expected);

    let reversed: Vec<String> = urls.into_iter().rev().collect();
    assert_eq!(cap_fetch_list(reversed), expected);
}

#[test]
fn cap_fetch_list_leaves_small_lists_untouched() {
    let urls = vec![
        "https://b.example".to_string(),
        "https://a.example".to_string(),
    ];
    assert_eq!(
        cap_fetch_list(urls.clone()),
        urls,
        "lists under the cap must be passed through unchanged"
    );
}

#[test]
fn line_index_maps_offsets_to_one_based_lines() {
    //             0123 456 78
    let index = LineIndex::build("ab\nc\n\nd");
    assert_eq!(index.line_of(0), 1);
    assert_eq!(index.line_of(2), 1); // the newline itself ends line 1
    assert_eq!(index.line_of(3), 2);
    assert_eq!(index.line_of(5), 3); // the empty line
    assert_eq!(index.line_of(6), 4);
    // Past the end is still the last line rather than a panic.
    assert_eq!(index.line_of(999), 4);

    assert_eq!(LineIndex::build("").line_of(0), 1);
}

#[test]
fn line_index_counts_bytes_not_characters() {
    // "é" is two bytes, so the newline sits at byte 2.
    let index = LineIndex::build("é\nx");
    assert_eq!(index.line_of(2), 1);
    assert_eq!(index.line_of(3), 2);
}

const DEFAULT_MARKERS: &[&str] = &["TK", "TODO", "FIXME", "XXX"];

fn default_incomplete_markers_for_test() -> Vec<String> {
    DEFAULT_MARKERS.iter().map(|s| s.to_string()).collect()
}

#[test]
fn test_build_incomplete_marker_regex_defaults() {
    let markers = default_incomplete_markers_for_test();
    let compiled = build_incomplete_marker_regex(&markers).expect("regex");
    let re = compiled.as_regex();
    assert!(re.is_match("TK"));
    assert!(re.is_match("TK rewrite this"));
    assert!(re.is_match("TODO foo"));
    assert!(re.is_match("FIXME(name)"));
    assert!(re.is_match("XXX:"));
    // Word boundary blocks TKTK / TODOs / Tk / lowercase.
    assert!(!re.is_match("TKTK"));
    assert!(!re.is_match("TODOs"));
    assert!(!re.is_match("Tk"));
    assert!(!re.is_match("todo"));
    assert!(!re.is_match("Tomato"));
}

#[test]
fn test_build_incomplete_marker_regex_empty() {
    let markers: Vec<String> = Vec::new();
    assert!(build_incomplete_marker_regex(&markers).is_none());
    let markers = vec!["".to_string()];
    assert!(build_incomplete_marker_regex(&markers).is_none());
}

#[test]
fn test_build_incomplete_marker_regex_escapes_metachars() {
    let markers = vec!["FOO(".to_string(), "BAR".to_string()];
    let compiled = build_incomplete_marker_regex(&markers).expect("regex compiles");
    let re = compiled.as_regex();
    assert!(re.is_match("BAR foo"));
    assert!(!re.is_match("Tomato"));
    assert_eq!(re.as_str(), r"^(?:FOO\(|BAR)\b");
}

#[test]
fn test_extract_first_h1_basic() {
    let md = "# Hello World\n\nSome content";
    assert_eq!(extract_first_h1(md), Some("Hello World".to_string()));
}

#[test]
fn test_extract_first_h1_with_inline_formatting() {
    let md = "# Hello **World**\n\nSome content";
    assert_eq!(extract_first_h1(md), Some("Hello World".to_string()));
}

#[test]
fn test_extract_first_h1_none_when_no_h1() {
    let md = "## This is H2\n\nSome content";
    assert_eq!(extract_first_h1(md), None);
}

#[test]
fn test_extract_first_h1_returns_first_only() {
    let md = "# First H1\n\n# Second H1";
    assert_eq!(extract_first_h1(md), Some("First H1".to_string()));
}

#[test]
fn test_extract_first_h1_empty_doc() {
    assert_eq!(extract_first_h1(""), None);
}

#[test]
fn extract_first_h1_includes_inline_code() {
    assert_eq!(
        extract_first_h1("# The `main` function\n"),
        Some("The main function".to_string())
    );
}

#[test]
fn extract_first_h1_skips_frontmatter_and_empty_headings() {
    let md = "---\ntitle: x\n---\n\n#\n\n# Real\n";
    assert_eq!(extract_first_h1(md), Some("Real".to_string()));
}

#[test]
fn collect_bare_urls_skips_code_blocks() {
    let fenced = markdown_events("```\nhttps://example.com/in-code\n```\n");
    assert!(
        collect_bare_urls(&fenced).is_empty(),
        "code-block URLs must not be queued for fetching"
    );
    let prose = markdown_events("https://example.com/outside\n");
    assert_eq!(collect_bare_urls(&prose).len(), 1, "prose URLs must still be queued");
}

#[test]
fn collect_bare_urls_skips_links_and_repeats() {
    let events = markdown_events(
        "https://a.example/x\n\n[link](https://b.example/)\n\nhttps://a.example/x\n\nsee https://c.example/\n",
    );
    assert_eq!(collect_bare_urls(&events), vec!["https://a.example/x".to_string()]);
    let built = vec![
        MdEvent::Text("https://one/".to_string()),
        MdEvent::StartLink { dest: "https://two/".to_string(), wiki: false },
        MdEvent::Text("https://two/".to_string()),
        MdEvent::EndLink,
        MdEvent::Text("http://three/".to_string()),
    ];
    assert_eq!(
        collect_bare_urls(&built),
        vec!["https://one/".to_string(), "http://three/".to_string()]
    );
}

#[test]
fn headings_carry_level_text_and_unique_ids() {
    let events = markdown_events("# Intro\n\n## The `main` function\n\n## Step 1\n\n## Step 1\n\n## Step 1-2\n");
    let headings = collect_headings(&events);
    let got: Vec<(u8, &str, &str)> = headings
        .iter()
        .map(|h| (h.level, h.text.as_str(), h.id.as_str()))
        .collect();
    assert_eq!(
        got,
        vec![
            (1, "Intro", "intro"),
            (2, "The main function", "the-main-function"),
            (2, "Step 1", "step-1"),
            (2, "Step 1", "step-1-2"),
            (2, "Step 1-2", "step-1-2-2"),
        ]
    );
}

#[test]
fn empty_headings_are_named_heading() {
    let headings = collect_headings(&markdown_events("#\n\n#\n"));
    let ids: Vec<&str> = headings.iter().map(|h| h.id.as_str()).collect();
    assert_eq!(ids, vec!["heading", "heading-2"]);
}

#[test]
fn line_numbers_never_go_down() {
    let index = LineIndex::build("a\nbb\n\nccc\n");
    let mut last = 0;
    for offset in 0..12 {
        let line = index.line_of(offset);
        assert!(line >= last);
        last = line;
    }
}

fn marked(md: &str, markers: &[&str]) -> Vec<MdEvent> {
    let markers: Vec<String> = markers.iter().map(|s| s.to_string()).collect();
    let re = build_incomplete_marker_regex(&markers).expect("regex");
    mark_incomplete_blocks(markdown_events(md), &re)
}

fn span_open() -> MdEvent {
    MdEvent::Html(INCOMPLETE_SPAN_OPEN.to_string())
}

fn span_close() -> MdEvent {
    MdEvent::Html(INCOMPLETE_SPAN_CLOSE.to_string())
}

fn count_spans(events: &[MdEvent]) -> usize {
    events.iter().filter(|e| **e == span_open()).count()
}

#[test]
fn incomplete_paragraph_is_wrapped_inside_the_paragraph() {
    let events = marked("TK rewrite this paragraph.", DEFAULT_MARKERS);
    assert_eq!(events[0], MdEvent::StartParagraph);
    assert_eq!(events[1], span_open());
    assert_eq!(events[2], MdEvent::Text("TK rewrite this paragraph.".to_string()));
    assert_eq!(events[3], span_close());
    assert_eq!(events[4], MdEvent::EndParagraph);
    assert_eq!(events.len(), 5);
}

#[test]
fn incomplete_heading_span_sits_inside_the_heading() {
    let events = marked("## TODO finish this", DEFAULT_MARKERS);
    assert_eq!(events[0], MdEvent::StartHeading(2));
    assert_eq!(events[1], span_open());
    assert_eq!(events[events.len() - 2], span_close());
    assert_eq!(events[events.len() - 1], MdEvent::EndHeading(2));
}

#[test]
fn incomplete_tight_list_item_marks_only_that_item() {
    let events = marked("- TK item one\n- normal item", DEFAULT_MARKERS);
    let at = events.iter().position(|e| *e == MdEvent::StartItem).unwrap();
    assert_eq!(events[at + 1], span_open());
    assert_eq!(count_spans(&events), 1);
}

#[test]
fn incomplete_loose_list_item_marks_its_paragraph() {
    let events = marked("- TK draft this\n\n- finished item\n", DEFAULT_MARKERS);
    let at = events.iter().position(|e| *e == MdEvent::StartParagraph).unwrap();
    assert_eq!(events[at + 1], span_open());
    let item = events.iter().position(|e| *e == MdEvent::StartItem).unwrap();
    assert_ne!(events[item + 1], span_open());
    assert_eq!(count_spans(&events), 1);
}

#[test]
fn incomplete_table_cell_is_wrapped() {
    let events = marked("| H |\n|---|\n| TK cell |\n", DEFAULT_MARKERS);
    let at = events.iter().position(|e| *e == MdEvent::Text("TK cell".to_string())).unwrap();
    assert_eq!(events[at - 1], span_open());
    assert_eq!(events[at - 2], MdEvent::StartTableCell);
    assert_eq!(events[at + 1], span_close());
}

#[test]
fn incomplete_span_wraps_a_leading_strong_or_link() {
    let events = marked("**TK** finish later", DEFAULT_MARKERS);
    assert_eq!(events[0], MdEvent::StartParagraph);
    assert_eq!(events[1], span_open());
    assert_eq!(events[2], MdEvent::StartInlineStyle);
    let events = marked("[TK](https://example.com) check this", DEFAULT_MARKERS);
    assert_eq!(events[1], span_open());
    assert_eq!(events[2], MdEvent::StartLink { dest: "https://example.com".to_string(), wiki: false });
}

#[test]
fn incomplete_markers_need_case_and_word_boundary() {
    for md in ["Tomato is red.", "Tk lowercase ignored.", "todo lowercase.", "TKTK shouldn't match.", "TODOs are plural.",
        "This paragraph mentions TK in the middle."]
    {
        assert_eq!(count_spans(&marked(md, DEFAULT_MARKERS)), 0, "{md}");
    }
}

#[test]
fn incomplete_markers_skip_code_blocks_and_frontmatter() {
    assert_eq!(count_spans(&marked("```\nTK code lines\n```\n", DEFAULT_MARKERS)), 0);
    assert_eq!(count_spans(&marked("---\ntitle: TK rename later\n---\n\nNormal paragraph.", DEFAULT_MARKERS)), 0);
}

#[test]
fn incomplete_blockquote_marks_its_paragraph() {
    let events = marked("> TK quote me", DEFAULT_MARKERS);
    let at = events.iter().position(|e| *e == MdEvent::StartParagraph).unwrap();
    assert_eq!(events[at + 1], span_open());
    assert_eq!(count_spans(&events), 1);
}

#[test]
fn incomplete_custom_markers_replace_the_defaults() {
    assert_eq!(count_spans(&marked("NOTE this draft.", &["NOTE"])), 1);
    assert_eq!(count_spans(&marked("TK ignored under custom list.", &["NOTE"])), 0);
}

#[test]
fn incomplete_leading_white_space_is_skipped_before_matching() {
    let events = vec![MdEvent::StartParagraph, MdEvent::Text("  TK later".to_string()), MdEvent::EndParagraph];
    let markers = vec!["TK".to_string()];
    let re = build_incomplete_marker_regex(&markers).unwrap();
    let out = mark_incomplete_blocks(events, &re);
    assert_eq!(out, vec![MdEvent::StartParagraph, span_open(), MdEvent::Text("  TK later".to_string()), span_close(),
        MdEvent::EndParagraph]);
}

#[test]
fn marking_only_adds_highlights() {
    let md = "# TODO title\n\nTK para\n\n- item\n- FIXME item\n\n| H |\n|---|\n| XXX |\n";
    let before = markdown_events(md);
    let after = marked(md, DEFAULT_MARKERS);
    let stripped: Vec<MdEvent> = after.into_iter().filter(|e| *e != span_open() && *e != span_close()).collect();
    assert_eq!(stripped, before);
}

#[test]
fn hint_prefixes_map_to_alerts() {
    assert_eq!(detect_hint_prefix("!> tip"), Some((HintKind::Tip, "tip")));
    assert_eq!(detect_hint_prefix("?> warn"), Some((HintKind::Warning, "warn")));
    assert_eq!(detect_hint_prefix("x> caution"), Some((HintKind::Caution, "caution")));
    assert_eq!(detect_hint_prefix("!> line one\nline two"), Some((HintKind::Tip, "line one\nline two")));
}

#[test]
fn hint_prefix_needs_the_space_and_the_start() {
    assert_eq!(detect_hint_prefix("!>no-space"), None);
    assert_eq!(detect_hint_prefix("text !> more"), None);
    assert_eq!(detect_hint_prefix("!>"), None);
    assert_eq!(detect_hint_prefix(""), None);
    assert_eq!(detect_hint_prefix("> quote"), None);
}

#[test]
fn task_markers_from_events() {
    assert_eq!(task_marker_status(&MdEvent::TaskListMarker(true), false), Some(TaskStatus::Done));
    assert_eq!(task_marker_status(&MdEvent::TaskListMarker(false), true), Some(TaskStatus::Open));
    assert_eq!(task_marker_status(&MdEvent::Text("[-] dropped".to_string()), true), Some(TaskStatus::Canceled));
    assert_eq!(task_marker_status(&MdEvent::Text("[>] moved".to_string()), true), Some(TaskStatus::Canceled));
    assert_eq!(task_marker_status(&MdEvent::Text("[-] dropped".to_string()), false), None);
    assert_eq!(task_marker_status(&MdEvent::Text("[-]x".to_string()), true), None);
    assert_eq!(task_marker_status(&MdEvent::StartItem, true), None);
}

#[test]
fn task_markers_from_parsed_list_items() {
    let events = markdown_events("- [x] done\n- [ ] open\n");
    let statuses: Vec<TaskStatus> = events.iter().filter_map(|e| task_marker_status(e, false)).collect();
    assert_eq!(statuses, vec![TaskStatus::Done, TaskStatus::Open]);
}

#[test]
fn inline_events_are_told_from_block_events() {
    for e in [MdEvent::Text("a".to_string()), MdEvent::Code("c".to_string()), MdEvent::SoftBreak, MdEvent::HardBreak,
        MdEvent::TaskListMarker(false), MdEvent::StartInlineStyle, MdEvent::EndLink, MdEvent::StartImage { dest: "a.png".to_string(), title: String::new() },
        MdEvent::InlineHtml("<b>".to_string()), MdEvent::FootnoteReference("1".to_string())]
    {
        assert!(is_inline_event(&e), "{e:?}");
    }
    for e in [MdEvent::StartParagraph, MdEvent::EndItem, MdEvent::Html("<div>".to_string()), MdEvent::Other,
        MdEvent::StartHeading(1), MdEvent::StartCodeBlock]
    {
        assert!(!is_inline_event(&e), "{e:?}");
    }
}

fn parsed(md: &str) -> mbr::markdown::ParsedDocument {
    let mut source = md.to_string();
    strip_bom_in_place(&mut source);
    parse_document(source).expect("document fits")
}

#[test]
fn parse_survives_comment_only_frontmatter() {
    let doc = parsed("---\n# tags: [draft]\n---\n\nBody text.\n");
    assert!(doc.frontmatter.is_empty(), "comment-only frontmatter yields no metadata, got: {:?}", doc.frontmatter);
}

#[test]
fn bom_prefixed_frontmatter_parses() {
    let doc = parsed("\u{feff}---\ntitle: My Page\ntags:\n  - alpha\n---\n\nBody text.\n");
    assert_eq!(doc.frontmatter.get("title"), Some(&mbr::frontmatter::MetaValue::Text("My Page".to_string())));
}

#[test]
fn parsed_document_counts_words_outside_code_and_frontmatter() {
    let doc = parsed("---\ntitle: A B C\n---\n\nOne two  three.\n\n```\nnot counted here\n```\n\nfour `five`\n");
    assert_eq!(doc.word_count, 4);
    assert!(!doc.has_h1);
    assert_eq!(doc.frontmatter.len(), 1);
}

#[test]
fn parsed_document_takes_title_from_leading_h1() {
    let doc = parsed("# My Title\n\n## Part\n");
    assert!(doc.has_h1);
    assert_eq!(doc.headings.len(), 2);
    assert_eq!(doc.headings[1].id, "part");
    assert_eq!(doc.frontmatter.get("title"), Some(&mbr::frontmatter::MetaValue::Text("My Title".to_string())));
    let doc = parsed("## Part\n\n# Later\n");
    assert!(!doc.has_h1);
    assert!(doc.frontmatter.get("title").is_none());
    let doc = parsed("---\ntitle: Front\n---\n\n# H1\n");
    assert_eq!(doc.frontmatter.get("title"), Some(&mbr::frontmatter::MetaValue::Text("Front".to_string())));
}

#[test]
fn parsed_document_skips_hint_markers_and_rule_attrs_in_word_count() {
    assert_eq!(parsed("!> tip here\n").word_count, 2);
    assert_eq!(parsed("before\n\n--- {#intro .wide}\n\nafter\n").word_count, 2);
    assert_eq!(parsed("text !> more\n").word_count, 3);
}

#[test]
fn hint_paragraph_becomes_an_alert() {
    let out = rewrite_blocks(markdown_events("!> tip"));
    assert_eq!(out, vec![MdEvent::StartAlert(HintKind::Tip), MdEvent::StartParagraph, MdEvent::Text("tip".to_string()),
        MdEvent::EndParagraph, MdEvent::EndAlert]);
    let out = rewrite_blocks(markdown_events("!>no-space"));
    assert_eq!(out, markdown_events("!>no-space"));
}

#[test]
fn rule_with_attrs_becomes_a_thematic_break() {
    let out = rewrite_blocks(vec![MdEvent::StartParagraph, MdEvent::Text("\u{2014} {#id .c}".to_string()), MdEvent::EndParagraph]);
    assert_eq!(out, vec![MdEvent::Rule]);
    let plain = vec![MdEvent::StartParagraph, MdEvent::Text("\u{2014} plain".to_string()), MdEvent::EndParagraph];
    assert_eq!(rewrite_blocks(plain.clone()), plain);
}

#[test]
fn words_are_runs_of_non_white_space() {
    assert_eq!(count_words(""), 0);
    assert_eq!(count_words("   "), 0);
    assert_eq!(count_words(" a  b\tc\n"), 3);
    assert_eq!(count_words("x\u{3000}y"), 2);
}

#[test]
fn highlights_open_and_close_in_pairs() {
    let md = "TK one\n\n- TODO two\n- three\n\n> FIXME four\n\n| H |\n|---|\n| XXX |\n";
    let out = marked(md, DEFAULT_MARKERS);
    let closes = out.iter().filter(|e| **e == span_close()).count();
    assert_eq!(count_spans(&out), 4);
    assert_eq!(closes, 4);
}

#[test]
fn parsed_heading_levels_run_from_one_to_six() {
    let doc = parse_document("# a\n## b\n### c\n#### d\n##### e\n###### f\n".to_string()).unwrap();
    let levels: Vec<u8> = doc.headings.iter().map(|h| h.level).collect();
    assert_eq!(levels, vec![1, 2, 3, 4, 5, 6]);
}
