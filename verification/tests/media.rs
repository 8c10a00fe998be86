use mbr::media::{Audio, MediaEmbed, Vid};


// YouTube detection tests
#[test]
fn test_youtube_watch_url() {
    let embed =
        MediaEmbed::from_url_and_title("https://www.youtube.com/watch?v=dQw4w9WgXcQ", "Title");
    assert!(matches!(
        embed,
        Some(MediaEmbed::YouTube { video_id, .. }) if video_id == "dQw4w9WgXcQ"
    ));
}

#[test]
fn test_youtube_short_url() {
    let embed = MediaEmbed::from_url_and_title("https://youtu.be/dQw4w9WgXcQ", "");
    assert!(matches!(
        embed,
        Some(MediaEmbed::YouTube { video_id, caption }) if video_id == "dQw4w9WgXcQ" && caption.is_none()
    ));
}

#[test]
fn test_youtube_embed_url() {
    let embed =
        MediaEmbed::from_url_and_title("https://www.youtube.com/embed/dQw4w9WgXcQ", "Caption");
    assert!(matches!(
        embed,
        Some(MediaEmbed::YouTube { video_id, caption }) if video_id == "dQw4w9WgXcQ" && caption == Some("Caption".to_string())
    ));
}

#[test]
fn test_youtube_with_extra_params() {
    let embed = MediaEmbed::from_url_and_title(
        "https://www.youtube.com/watch?v=dQw4w9WgXcQ&t=30s",
        "",
    );
    assert!(matches!(
        embed,
        Some(MediaEmbed::YouTube { video_id, .. }) if video_id == "dQw4w9WgXcQ"
    ));
}

// Video detection tests
#[test]
fn test_video_mp4() {
    let embed = MediaEmbed::from_url_and_title("video.mp4", "My Video");
    assert!(matches!(embed, Some(MediaEmbed::Video(_))));
}

#[test]
fn test_video_webm_not_detected_by_vid() {
    // webm is not in Vid's list, so it won't be detected as video
    // This is existing behavior - webm goes through as audio since Audio supports it
    let embed = MediaEmbed::from_url_and_title("video.webm", "");
    assert!(matches!(embed, Some(MediaEmbed::Audio(_))));
}

// Audio detection tests
#[test]
fn test_audio_mp3() {
    let embed = MediaEmbed::from_url_and_title("podcast.mp3", "Episode 1");
    assert!(matches!(embed, Some(MediaEmbed::Audio(_))));
}

#[test]
fn test_audio_wav() {
    let embed = MediaEmbed::from_url_and_title("sound.wav", "");
    assert!(matches!(embed, Some(MediaEmbed::Audio(_))));
}

// PDF detection tests
#[test]
fn test_pdf() {
    let embed = MediaEmbed::from_url_and_title("document.pdf", "Important Doc");
    assert!(matches!(
        embed,
        Some(MediaEmbed::Pdf { url, caption }) if url == "document.pdf" && caption == Some("Important Doc".to_string())
    ));
}

#[test]
fn test_pdf_with_path() {
    let embed = MediaEmbed::from_url_and_title("/docs/report.pdf", "");
    assert!(matches!(
        embed,
        Some(MediaEmbed::Pdf { url, caption }) if url == "/docs/report.pdf" && caption.is_none()
    ));
}

#[test]
fn test_pdf_case_insensitive() {
    let embed = MediaEmbed::from_url_and_title("document.PDF", "");
    assert!(matches!(embed, Some(MediaEmbed::Pdf { .. })));
}

// Non-media files
#[test]
fn test_image_not_detected() {
    assert!(MediaEmbed::from_url_and_title("photo.jpg", "").is_none());
    assert!(MediaEmbed::from_url_and_title("image.png", "").is_none());
    assert!(MediaEmbed::from_url_and_title("graphic.gif", "").is_none());
}

#[test]
fn test_unknown_extension() {
    assert!(MediaEmbed::from_url_and_title("file.xyz", "").is_none());
}

#[test]
fn test_no_extension() {
    assert!(MediaEmbed::from_url_and_title("https://example.com/page", "").is_none());
}

// HTML generation tests
#[test]
fn test_youtube_html() {
    let embed = MediaEmbed::YouTube {
        video_id: "abc123xyz".to_string(),
        caption: Some("Test Video".to_string()),
    };
    let html = embed.to_html(false);
    assert!(html.contains("youtube-embed"));
    assert!(html.contains("https://www.youtube.com/embed/abc123xyz"));
    assert!(html.contains("<figcaption>Test Video</figcaption>"));
}

#[test]
fn test_pdf_html() {
    let embed = MediaEmbed::Pdf {
        url: "/docs/test.pdf".to_string(),
        caption: Some("My PDF".to_string()),
    };
    let html = embed.to_html(false);
    assert!(html.contains("pdf-embed"));
    assert!(html.contains(r#"data="/docs/test.pdf""#));
    assert!(html.contains(r#"type="application/pdf""#));
    assert!(html.contains("data-pdf-fallback"));
    assert!(html.contains("<figcaption>My PDF</figcaption>"));
}

#[test]
fn test_pdf_html_open_only() {
    let embed = MediaEmbed::Pdf {
        url: "doc.pdf".to_string(),
        caption: None,
    };
    let html = embed.to_html(true);
    assert!(html.contains("<object"));
    assert!(!html.contains("</figcaption></figure>"));
}

#[test]
fn test_html_close() {
    let youtube = MediaEmbed::YouTube {
        video_id: "x".to_string(),
        caption: None,
    };
    let pdf = MediaEmbed::Pdf {
        url: "x.pdf".to_string(),
        caption: None,
    };
    assert_eq!(youtube.html_close(), "</figcaption></figure>");
    assert_eq!(pdf.html_close(), "</figcaption></figure>");
}

#[test]
fn video_embed_keeps_url_and_caption() {
    let v = Vid::from_url_and_title("clips/intro.MP4", "Intro").unwrap();
    assert_eq!(v.url, "clips/intro.MP4");
    assert_eq!(v.caption, Some("Intro".to_string()));
    assert!(Vid::from_url_and_title("song.mp3", "").is_none());
}

#[test]
fn audio_embed_without_title_has_no_caption() {
    let a = Audio::from_url_and_title("talk.opus", "").unwrap();
    assert_eq!(a.url, "talk.opus");
    assert_eq!(a.caption, None);
    assert!(Audio::from_url_and_title("movie.mp4", "").is_none());
}

#[test]
fn video_html_embeds_the_source_and_closes() {
    let embed = MediaEmbed::from_url_and_title("a.mp4", "Cap").unwrap();
    let html = embed.to_html(false);
    assert!(html.contains("<video"));
    assert!(html.contains("src=\"a.mp4\""));
    assert!(html.ends_with("<figcaption>Cap</figcaption></figure>"));
    let open = embed.to_html(true);
    assert!(open.ends_with("<figcaption>Cap"));
    assert_eq!(format!("{}{}", open, embed.html_close()), html);
}

#[test]
fn youtube_id_is_eleven_id_characters() {
    let embed = MediaEmbed::from_url_and_title("https://youtu.be/ab_c-9XYZ12?si=x", "");
    assert!(matches!(
        embed,
        Some(MediaEmbed::YouTube { video_id, .. }) if video_id == "ab_c-9XYZ12"
    ));
    assert!(MediaEmbed::from_url_and_title("https://youtu.be/short", "").is_none());
}
