# mbr

The link and page logic of a markdown browser, written in Verus and proved
against its contracts.

- `src/` is the verified library:
  - URL paths and links: `url_path`, `link_index`, `link_transform`, `link_rewrite`.
  - Backlinks: `link_grep`.
  - The caches: `link_cache`, `oembed_cache`.
  - Markdown processing:
    - `markdown`: parsing into a model of events, headings and anchor ids,
      incomplete-block marking, alerts, word counts and `parse_document`;
    - `event_step`: the per-event render step (media embeds, link rewriting and
      collection, frontmatter, link cards, counts);
    - `frontmatter`: YAML frontmatter as flat metadata.
  - Pages: `media` (embeds), `oembed` (link cards), `page_context`, `page_errors`.
  - Startup decisions: `launch`.

  Calls into outside crates (pulldown-cmark, regex, scraper, aho-corasick,
  html-escape, lru, papaya, url, yaml-rust2) sit behind small trusted wrappers
  whose contracts name or state what those crates do. The laws of the library
  are the `law_*` proof functions.
- `tests/` runs the library on concrete inputs.
- `app/` is the command line around it. It walks repositories, reads and
  writes files, and prints JSON.
