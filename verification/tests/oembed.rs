use mbr::oembed::{
    append_capped, format_error_chain, is_http_scheme, is_public_ipv4, is_public_ipv6,
    is_supported_favicon_type, next_fetch_step, FetchStep, OembedError, PageInfo, ResponseHead,
    MAX_OEMBED_BODY_BYTES, MAX_REDIRECTS,
};
use std::error::Error;

#[derive(Debug)]
struct OuterError {
    source: Box<dyn Error + Send + Sync>,
}

impl std::fmt::Display for OuterError {
    fn fmt(&self, f: &mut std::fmt::Formatter<'_>) -> std::fmt::Result {
        f.write_str("outer error")
    }
}

impl Error for OuterError {
    fn source(&self) -> Option<&(dyn Error + 'static)> {
        Some(self.source.as_ref())
    }
}

/// The messages of an error and of each of its sources, outermost first.
fn error_messages(err: &dyn Error) -> Vec<String> {
    let mut chain = vec![err.to_string()];
    let mut current = err.source();
    while let Some(source) = current {
        chain.push(source.to_string());
        current = source.source();
    }
    chain
}

#[test]
fn test_estimated_size_empty() {
    let info = PageInfo::default();
    // Should at least include the struct size
    assert!(info.estimated_size() >= std::mem::size_of::<PageInfo>());
}

#[test]
fn test_estimated_size_with_fields() {
    let info = PageInfo {
        url: "https://example.com".to_string(),
        title: Some("Test Title".to_string()),
        description: Some("A longer description text".to_string()),
        image: Some("https://example.com/image.png".to_string()),
        embed_html: None,
    };
    let size = info.estimated_size();
    // Size should include all the string lengths
    let expected_min = std::mem::size_of::<PageInfo>()
        + info.url.len()
        + info.title.as_ref().unwrap().len()
        + info.description.as_ref().unwrap().len()
        + info.image.as_ref().unwrap().len();
    assert_eq!(size, expected_min);
}

#[test]
fn estimated_size_counts_bytes_not_characters() {
    let info = PageInfo {
        url: "é".to_string(),
        ..Default::default()
    };
    assert_eq!(info.estimated_size(), std::mem::size_of::<PageInfo>() + 2);
}

#[test]
fn test_format_error_chain_single() {
    let err = std::io::Error::other("simple error");
    let chain = format_error_chain(&error_messages(&err));
    assert_eq!(chain, "simple error");
}

#[test]
fn test_format_error_chain_nested() {
    let inner = std::io::Error::other("inner error");
    let outer = OuterError {
        source: Box::new(inner),
    };
    let chain = format_error_chain(&error_messages(&outer));
    assert!(chain.contains("outer error"));
    assert!(chain.contains("inner error"));
    assert!(chain.contains(" -> "));
    assert_eq!(chain, "outer error -> inner error");
}

#[test]
fn format_error_chain_of_nothing_is_empty() {
    assert_eq!(format_error_chain(&[]), "");
}

#[test]
fn test_supported_favicon_type_none() {
    // No type attribute means assume supported
    assert!(is_supported_favicon_type(None));
}

#[test]
fn test_supported_favicon_type_png() {
    assert!(is_supported_favicon_type(Some("image/png")));
}

#[test]
fn test_supported_favicon_type_svg() {
    assert!(is_supported_favicon_type(Some("image/svg+xml")));
}

#[test]
fn test_supported_favicon_type_ico() {
    assert!(is_supported_favicon_type(Some("image/x-icon")));
    assert!(is_supported_favicon_type(Some("image/vnd.microsoft.icon")));
}

#[test]
fn test_unsupported_favicon_type() {
    assert!(!is_supported_favicon_type(Some("image/webp")));
    assert!(!is_supported_favicon_type(Some("text/html")));
}

#[test]
fn test_text_with_title() {
    let info = PageInfo {
        url: "https://example.com".to_string(),
        title: Some("My Title".to_string()),
        ..Default::default()
    };
    let text = info.text();
    assert_eq!(text, "My Title: https://example.com");
}

#[test]
fn test_text_without_title() {
    let info = PageInfo {
        url: "https://example.com".to_string(),
        ..Default::default()
    };
    let text = info.text();
    assert_eq!(text, "no title: https://example.com");
}

#[test]
fn test_giphy_media_url() {
    let url = "https://media1.giphy.com/media/v1.Y2lkPTc5MGI3NjExaThmbzNhb3duNGM5NGVxemo4aHlnYTM1YXA4cGxmc2l2ejdjc2s4ZCZlcD12MV9pbnRlcm5hbF9naWZfYnlfaWQmY3Q9Zw/CAxbo8KC2A0y4/giphy.gif";
    let embed = PageInfo::giphy_embed(url);
    assert!(embed.is_some());
    let html = embed.unwrap();
    assert!(html.contains("giphy-embed"));
    assert!(html.contains(url));
}

#[test]
fn test_giphy_media_url_without_version() {
    let url = "https://media.giphy.com/media/CAxbo8KC2A0y4/giphy.gif";
    let embed = PageInfo::giphy_embed(url);
    assert!(embed.is_some());
    let html = embed.unwrap();
    assert!(html.contains("giphy-embed"));
    assert!(html.contains(url));
}

#[test]
fn test_giphy_i_url() {
    let url = "https://i.giphy.com/CAxbo8KC2A0y4.gif";
    let embed = PageInfo::giphy_embed(url);
    assert!(embed.is_some());
    let html = embed.unwrap();
    assert!(html.contains("giphy-embed"));
    assert!(html.contains(url));
}

#[test]
fn test_giphy_page_url() {
    let url = "https://giphy.com/gifs/cat-funny-CAxbo8KC2A0y4";
    let embed = PageInfo::giphy_embed(url);
    assert!(embed.is_some());
    let html = embed.unwrap();
    assert!(html.contains("giphy-embed"));
    assert!(html.contains("https://media.giphy.com/media/CAxbo8KC2A0y4/giphy.gif"));
}

#[test]
fn test_giphy_page_url_simple() {
    let url = "https://giphy.com/gifs/CAxbo8KC2A0y4";
    let embed = PageInfo::giphy_embed(url);
    assert!(embed.is_some());
    let html = embed.unwrap();
    assert!(html.contains("https://media.giphy.com/media/CAxbo8KC2A0y4/giphy.gif"));
}

#[test]
fn test_non_giphy_url() {
    let url = "https://example.com/image.gif";
    let embed = PageInfo::giphy_embed(url);
    assert!(embed.is_none());
}

#[test]
fn test_youtube_not_giphy() {
    let url = "https://www.youtube.com/watch?v=dQw4w9WgXcQ";
    let embed = PageInfo::giphy_embed(url);
    assert!(embed.is_none());
}

#[test]
fn test_html_with_embed() {
    let info = PageInfo {
        url: "https://example.com".to_string(),
        embed_html: Some("<div>embedded</div>".to_string()),
        ..Default::default()
    };
    let html = info.html();
    assert_eq!(html, "<div>embedded</div>");
}

#[test]
fn test_html_with_title_and_image() {
    let info = PageInfo {
        url: "https://example.com".to_string(),
        title: Some("My Title".to_string()),
        description: Some("My description".to_string()),
        image: Some("https://example.com/image.png".to_string()),
        embed_html: None,
    };
    let html = info.html();
    assert!(html.contains("mbr-social-link-box"));
    assert!(html.contains("My Title"));
    assert!(html.contains("My description"));
    assert!(html.contains(r#"<img src="https://example.com/image.png"/>"#));
}

#[test]
fn test_html_with_title_no_image() {
    let info = PageInfo {
        url: "https://example.com".to_string(),
        title: Some("Just Title".to_string()),
        description: None,
        image: None,
        embed_html: None,
    };
    let html = info.html();
    assert!(html.contains("mbr-social-link-box"));
    assert!(html.contains("Just Title"));
    assert!(!html.contains("<img"));
}

#[test]
fn test_html_no_title_plain_link() {
    let info = PageInfo {
        url: "https://example.com/page".to_string(),
        title: None,
        description: Some("ignored without title".to_string()),
        image: None,
        embed_html: None,
    };
    let html = info.html();
    // Should be a plain link
    assert!(html.contains(r#"<a href="https://example.com/page">"#));
    assert!(html.contains("https://example.com/page</a>"));
    assert!(!html.contains("mbr-social-link-box"));
}

#[test]
fn test_html_image_with_quotes_escaped() {
    // Single-quote breakout attempt: harmless inside double-quoted attribute
    let info = PageInfo {
        url: "https://example.com".to_string(),
        title: Some("Title".to_string()),
        image: Some("x' onerror='alert(1)".to_string()),
        ..Default::default()
    };
    let html = info.html();
    // The whole payload stays inside the double-quoted src value
    assert!(html.contains(r#"<img src="x' onerror='alert(1)"/>"#));

    // Double-quote breakout attempt: quote must be escaped to &quot;
    let info = PageInfo {
        url: "https://example.com".to_string(),
        title: Some("Title".to_string()),
        image: Some(r#"x" onerror="alert(1)"#.to_string()),
        ..Default::default()
    };
    let html = info.html();
    assert!(html.contains("&quot;"));
    // No parseable onerror attribute: the closing quote never appears raw
    assert!(!html.contains(r#"" onerror=""#));
}

#[test]
fn test_html_url_with_quote_escaped() {
    let evil_url = r#"https://example.com/"><script>alert(1)</script>"#;

    // Titled-card branch
    let info = PageInfo {
        url: evil_url.to_string(),
        title: Some("Title".to_string()),
        ..Default::default()
    };
    let html = info.html();
    assert!(!html.contains(r#""><script>"#));
    assert!(!html.contains("<script>"));

    // Plain-link branch
    let info = PageInfo {
        url: evil_url.to_string(),
        ..Default::default()
    };
    let html = info.html();
    assert!(!html.contains(r#""><script>"#));
    // Visible link text is text-escaped too
    assert!(!html.contains("<script>"));
    assert!(html.contains("&lt;script&gt;"));
}

#[test]
fn test_html_favicon_quote_breakout_escaped() {
    let info = PageInfo {
        url: "https://example.com".to_string(),
        title: Some("Title".to_string()),
        image: Some(r#"x.png"><script>alert(1)</script>"#.to_string()),
        ..Default::default()
    };
    let html = info.html();
    assert!(!html.contains("<script>"));
    assert!(html.contains("&quot;&gt;&lt;script&gt;"));
}

#[test]
fn test_giphy_page_url_with_query() {
    let url = "https://giphy.com/gifs/cat-funny-CAxbo8KC2A0y4?utm_source=test";
    let embed = PageInfo::giphy_embed(url);
    assert!(embed.is_some());
    let html = embed.unwrap();
    assert!(html.contains("https://media.giphy.com/media/CAxbo8KC2A0y4/giphy.gif"));
}

#[test]
fn test_giphy_webp_extension() {
    let url = "https://media.giphy.com/media/CAxbo8KC2A0y4/giphy.webp";
    let embed = PageInfo::giphy_embed(url);
    assert!(embed.is_some());
    let html = embed.unwrap();
    assert!(html.contains(url));
}

#[test]
fn test_gist_embed_basic() {
    let url = "https://gist.github.com/rpinna/b97f8505940f255e8ebbd9a17c76f3ea";
    let embed = PageInfo::gist_embed(url);
    assert!(embed.is_some());
    let html = embed.unwrap();
    assert!(html.contains(
        r#"<script src="https://gist.github.com/rpinna/b97f8505940f255e8ebbd9a17c76f3ea.js"></script>"#
    ));
}

#[test]
fn test_gist_embed_with_fragment() {
    let url = "https://gist.github.com/rpinna/b97f8505940f255e8ebbd9a17c76f3ea#file-order-ts";
    let embed = PageInfo::gist_embed(url);
    assert!(embed.is_some());
    let html = embed.unwrap();
    // .js should come BEFORE the fragment
    assert!(html.contains(
        r#"<script src="https://gist.github.com/rpinna/b97f8505940f255e8ebbd9a17c76f3ea.js#file-order-ts"></script>"#
    ));
}

#[test]
fn test_gist_embed_http() {
    let url = "http://gist.github.com/user/abc123";
    let embed = PageInfo::gist_embed(url);
    assert!(embed.is_some());
}

#[test]
fn test_gist_non_gist_url() {
    let url = "https://github.com/user/repo";
    let embed = PageInfo::gist_embed(url);
    assert!(embed.is_none());
}

#[test]
fn test_gist_not_youtube() {
    let url = "https://www.youtube.com/watch?v=dQw4w9WgXcQ";
    let embed = PageInfo::gist_embed(url);
    assert!(embed.is_none());
}

#[test]
fn without_fetch_zero_timeout_is_a_plain_link() {
    for url in [
        "https://example.com/some-page",
        "https://www.youtube.com/watch?v=dQw4w9WgXcQ",
        "https://media.giphy.com/media/CAxbo8KC2A0y4/giphy.gif",
    ] {
        let info = PageInfo::without_fetch(url, 0).unwrap();
        assert_eq!(info.url, url);
        assert!(info.title.is_none());
        assert!(info.embed_html.is_none());
        assert!(info.html().contains("<a href="));
        assert!(info.html().contains(url));
    }
}

#[test]
fn without_fetch_embeds_media_giphy_and_gists() {
    let info = PageInfo::without_fetch("https://example.com/videos/demo.mp4", 500).unwrap();
    assert!(info.embed_html.unwrap().contains("<video"));
    let info = PageInfo::without_fetch("https://example.com/audio/podcast.mp3", 500).unwrap();
    assert!(info.embed_html.unwrap().contains("<audio"));
    let info = PageInfo::without_fetch("https://example.com/docs/report.pdf", 500).unwrap();
    let html = info.embed_html.unwrap();
    assert!(html.contains("pdf-embed"));
    assert!(html.contains(r#"type="application/pdf""#));
    let info = PageInfo::without_fetch("https://gist.github.com/u/abc", 500).unwrap();
    assert!(info.embed_html.unwrap().contains("abc.js"));
    assert!(PageInfo::without_fetch("https://example.com/videos/mp4-format/info", 500).is_none());
}

#[test]
fn metadata_prefers_open_graph_and_escapes_text() {
    let html = r#"<html><head>
        <title>Plain</title>
        <meta property="og:title" content="T &amp; <b>"/>
        <meta name="description" content="fallback"/>
        <meta property="og:image" content="https://example.com/img?a=1&b=2"/>
    </head><body></body></html>"#;
    let info = PageInfo::from_document("https://example.com", html);
    assert_eq!(info.url, "https://example.com");
    assert_eq!(info.title.as_deref(), Some("T &amp; &lt;b&gt;"));
    assert_eq!(info.description.as_deref(), Some("fallback"));
    assert_eq!(info.image.as_deref(), Some("https://example.com/img?a=1&b=2"));
    assert!(info.html().contains(r#"<img src="https://example.com/img?a=1&amp;b=2"/>"#));
}

#[test]
fn metadata_falls_back_to_title_and_supported_favicon() {
    let html = r#"<html><head><title>Big</title>
        <link rel="icon" type="image/webp" href="/a.webp">
        <link rel="icon" href="/b.ico">
    </head><body></body></html>"#;
    let info = PageInfo::from_document("https://x.org/", html);
    assert_eq!(info.title.as_deref(), Some("Big"));
    assert_eq!(info.description, None);
    assert_eq!(info.image.as_deref(), Some("/b.ico"));
    let bare = PageInfo::from_document("https://x.org/", "<p>no head content</p>");
    assert_eq!(bare.title, None);
    assert_eq!(bare.image, None);
}

#[test]
fn fetch_steps_follow_redirects_up_to_the_limit() {
    let redirect = ResponseHead {
        status: 302,
        location: Some(Some("/next".to_string())),
        cf_challenge: false,
        content_type: None,
    };
    match next_fetch_step("http://a/", "http://a/", 0, &redirect) {
        FetchStep::Follow { location, redirects } => {
            assert_eq!(location, "/next");
            assert_eq!(redirects, 1);
        }
        _ => panic!("expected a redirect"),
    }
    match next_fetch_step("http://a/", "http://a/x", MAX_REDIRECTS, &redirect) {
        FetchStep::Fail(OembedError::TooManyRedirects { max, url }) => {
            assert_eq!(max, 5);
            assert_eq!(url, "http://a/");
        }
        _ => panic!("expected the redirect limit"),
    }
    let no_location = ResponseHead {
        status: 301,
        location: None,
        cf_challenge: false,
        content_type: None,
    };
    assert!(matches!(
        next_fetch_step("http://a/", "http://a/b", 1, &no_location),
        FetchStep::Fail(OembedError::RedirectWithoutLocation { .. })
    ));
}

#[test]
fn fetch_steps_check_challenge_and_content_type() {
    let head = |ct: Option<&str>, cf: bool| ResponseHead {
        status: 200,
        location: None,
        cf_challenge: cf,
        content_type: ct.map(|s| s.to_string()),
    };
    assert!(matches!(next_fetch_step("u", "u", 0, &head(None, false)), FetchStep::Read));
    assert!(matches!(
        next_fetch_step("u", "u", 0, &head(Some("text/html; charset=utf-8"), false)),
        FetchStep::Read
    ));
    assert!(matches!(
        next_fetch_step("u", "u", 0, &head(Some("application/xhtml+xml"), false)),
        FetchStep::Read
    ));
    assert!(matches!(
        next_fetch_step("u", "u", 0, &head(Some("text/html"), true)),
        FetchStep::Fail(OembedError::CloudflareChallenge)
    ));
    match next_fetch_step("u", "v", 0, &head(Some("application/octet-stream"), false)) {
        FetchStep::Fail(OembedError::NonHtmlContentType { content_type, url }) => {
            assert_eq!(content_type, "application/octet-stream");
            assert_eq!(url, "v");
        }
        _ => panic!("expected a content-type failure"),
    }
}

#[test]
fn body_is_truncated_at_the_cap() {
    let mut buf = vec![0u8; MAX_OEMBED_BODY_BYTES - 3];
    assert!(!append_capped(&mut buf, &[1, 2]));
    assert_eq!(buf.len(), MAX_OEMBED_BODY_BYTES - 1);
    assert!(append_capped(&mut buf, &[3, 4, 5]));
    assert_eq!(buf.len(), MAX_OEMBED_BODY_BYTES);
    assert_eq!(buf[MAX_OEMBED_BODY_BYTES - 1], 3);
}

#[test]
fn test_is_public_ip() {
    // 127.0.0.1, 0.0.0.0, 10.1.2.3, 172.16.0.1, 172.31.255.255, 192.168.1.1,
    // 169.254.169.254, 255.255.255.255
    for v4 in [
        [127, 0, 0, 1],
        [0, 0, 0, 0],
        [10, 1, 2, 3],
        [172, 16, 0, 1],
        [172, 31, 255, 255],
        [192, 168, 1, 1],
        [169, 254, 169, 254],
        [255, 255, 255, 255],
    ] {
        assert!(!is_public_ipv4(v4), "{v4:?} should be rejected");
    }
    // ::1, ::, fc00::1, fe80::1, ::ffff:10.0.0.1
    for v6 in [
        [0, 0, 0, 0, 0, 0, 0, 1],
        [0, 0, 0, 0, 0, 0, 0, 0],
        [0xfc00, 0, 0, 0, 0, 0, 0, 1],
        [0xfe80, 0, 0, 0, 0, 0, 0, 1],
        [0, 0, 0, 0, 0, 0xffff, 0x0a00, 0x0001],
    ] {
        assert!(!is_public_ipv6(v6), "{v6:?} should be rejected");
    }
    // 93.184.216.34, 172.32.0.1, 2606:2800::1, ::ffff:93.184.216.34
    assert!(is_public_ipv4([93, 184, 216, 34]));
    assert!(is_public_ipv4([172, 32, 0, 1]));
    assert!(is_public_ipv6([0x2606, 0x2800, 0, 0, 0, 0, 0, 1]));
    assert!(is_public_ipv6([0, 0, 0, 0, 0, 0xffff, 0x5db8, 0xd822]));
}

#[test]
fn only_http_schemes_are_fetched() {
    assert!(is_http_scheme("http"));
    assert!(is_http_scheme("https"));
    assert!(!is_http_scheme("ftp"));
    assert!(!is_http_scheme("HTTP"));
}

#[test]
fn test_clone() {
    let info = PageInfo {
        url: "https://example.com".to_string(),
        title: Some("Test".to_string()),
        description: None,
        image: None,
        embed_html: Some("<div></div>".to_string()),
    };
    let cloned = info.clone();
    assert_eq!(cloned.url, info.url);
    assert_eq!(cloned.title, info.title);
    assert_eq!(cloned.embed_html, info.embed_html);
}

#[test]
fn test_extract_og_image_is_raw() {
    let doc = r#"<html><head>
            <meta property="og:title" content="T"/>
            <meta property="og:image" content="https://example.com/img?a=1&b=2"/>
        </head><body></body></html>"#;
    let image = PageInfo::from_document("https://example.com", doc).image.unwrap();
    assert_eq!(image, "https://example.com/img?a=1&b=2");

    let info = PageInfo {
        url: "https://example.com".to_string(),
        title: Some("T".to_string()),
        image: Some(image),
        ..Default::default()
    };
    let html = info.html();
    assert!(html.contains(r#"<img src="https://example.com/img?a=1&amp;b=2"/>"#));
    assert!(!html.contains("&amp;amp;"));
}

#[test]
fn card_url_and_image_cannot_break_out_of_attributes() {
    let info = PageInfo {
        url: "https://e.com/\"><script>x</script>".to_string(),
        title: Some("T".to_string()),
        description: Some("D".to_string()),
        image: Some("i.png\" onerror=\"x".to_string()),
        embed_html: None,
    };
    let html = info.html();
    assert!(!html.contains("<script>"), "{html}");
    assert!(!html.contains("\" onerror"), "{html}");
}
