//! Link and page logic for a markdown browser: URL resolution, link
//! transformation for the trailing-slash URL convention, backlink pattern
//! computation, media embed detection and per-page error reporting.

pub mod text;
pub mod url_path;
pub mod link_index;
pub mod link_cache;
pub mod link_transform;
pub mod link_grep;
pub mod media;
pub mod oembed;
pub mod oembed_cache;
pub mod page_context;
pub mod page_errors;
pub mod regex_text;
pub mod link_rewrite;
pub mod markdown;
pub mod frontmatter;
pub mod launch;
pub mod event_step;
