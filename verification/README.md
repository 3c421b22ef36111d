# mdbook_slides

An mdBook preprocessor that turns chapters marked `slides: true` in their
YAML frontmatter into self-contained slide decks, with its logic verified
in Verus.

- `src/` — the verified library:
  - `frontmatter.rs`: finding the frontmatter block (the fences and the
    YAML text between them);
  - `html_template.rs`: splitting a deck into slides, stripping speaker
    notes, anchoring each slide's first heading for mdBook's table of
    contents, keeping the deck one HTML block, and the deck's HTML;
  - `slug.rs`: mdBook's heading ids and their de-duplication;
  - `markdown.rs`: rendering through pulldown-cmark and capturing a slide's
    first heading from the parser's events;
  - `install.rs`: what `install` adds to `book.toml`, and the rewriting of
    its text through toml_edit;
  - `text.rs`: the character-level model (white space, trimming, lines,
    searching, decimal numerals);
  - `lib.rs`: the preprocessor's name and renderer check, the heuristic for
    mangled frontmatter, and the decision for one chapter.
- `app/` — the `mdbook-slides` program: the mdBook protocol on stdin/stdout,
  the `supports` and `install` subcommands, the YAML step, reading and
  writing `book.toml` and the stylesheets.
- `tests/` — the test suite.
