use mdbook_slides::html_template::{
    anchorize_first_heading, escape_html, id_from_content, prevent_blank_lines, render_markdown,
    render_markdown_with_heading, render_presentation, split_slides, strip_notes, unique_id,
    UsedIds, SLIDESHOW_JS,
};

#[test]
fn test_split_slides() {
    let md = "# Slide 1\n\n---\n\n# Slide 2\n\n---\n\n# Slide 3";
    let slides = split_slides(md);
    assert_eq!(slides.len(), 3);
    assert_eq!(slides[0], "# Slide 1");
    assert_eq!(slides[1], "# Slide 2");
    assert_eq!(slides[2], "# Slide 3");
}

#[test]
fn test_split_slides_no_separator() {
    let md = "# Only One Slide\n\nContent here.";
    let slides = split_slides(md);
    assert_eq!(slides.len(), 1);
}

#[test]
fn test_strip_notes() {
    assert_eq!(strip_notes("Content\n\nNote:\nSpeaker notes"), "Content");
    assert_eq!(strip_notes("Content\n\nNotes:\nSpeaker notes"), "Content");
    assert_eq!(strip_notes("No notes here"), "No notes here");
}

#[test]
fn test_render_markdown() {
    let html = render_markdown("# Hello\n\nWorld");
    assert!(html.contains("<h1>Hello</h1>"));
    assert!(html.contains("<p>World</p>"));
}

#[test]
fn test_prevent_blank_lines() {
    let input = "line1\n\nline3";
    let result = prevent_blank_lines(input);
    assert_eq!(result, "line1\n<!-- -->\nline3");
}

#[test]
fn test_render_presentation_structure() {
    let html = render_presentation("# Slide 1\n\n---\n\n# Slide 2", "Deck");
    assert!(html.starts_with("<div"));
    assert!(html.contains("class=\"slide active\""));
    assert!(html.contains("class=\"slide\""));
    assert!(html.contains("1 / 2"));
    assert!(html.contains("<h1>Slide 1</h1>"));
    assert!(html.contains("<h1>Slide 2</h1>"));
    // The embedded navigation script deep-links the active slide.
    assert!(html.contains("#slide-"));
    assert!(html.contains("replaceState"));
}

#[test]
fn test_slideshow_js_deeplink() {
    // Write side: the active slide is mirrored into the URL.
    assert!(SLIDESHOW_JS.contains("replaceState"));
    assert!(SLIDESHOW_JS.contains("'#slide-' + (current + 1)"));
    // Read side: an explicit #slide-N in the URL sets the starting slide.
    assert!(SLIDESHOW_JS.contains("location.hash"));
    assert!(SLIDESHOW_JS.contains("#slide-(\\d+)"));
}

#[test]
fn test_render_presentation_no_blank_lines_in_div_block() {
    let html = render_presentation(
        "# Slide 1\n\nParagraph\n\n---\n\n# Slide 2\n\n```\ncode\n\nmore\n```",
        "Deck",
    );
    // The div block (before the script) must have no blank lines
    let div_block = html.split("\n\n<script>").next().unwrap();
    for (i, line) in div_block.lines().enumerate() {
        assert!(
            !line.trim().is_empty(),
            "Blank line at line {}: {:?}",
            i + 1,
            line
        );
    }
}

#[test]
fn test_speaker_notes_stripped() {
    let html = render_presentation("Content\n\nNote:\nSecret notes\n\n---\n\n# Slide 2", "Deck");
    assert!(!html.contains("Secret notes"));
    assert!(html.contains("Content"));
}

#[test]
fn test_id_from_content_basic() {
    assert_eq!(id_from_content("Hello World"), "hello-world");
}

#[test]
fn test_id_from_content_mdbook_vectors() {
    assert_eq!(
        id_from_content("`--passes`: add more rustdoc passes"),
        "--passes-add-more-rustdoc-passes"
    );
    assert_eq!(
        id_from_content("Method-call 🐙 expressions \u{1f47c}"),
        "method-call--expressions-"
    );
    assert_eq!(id_from_content("_-_12345"), "_-_12345");
    assert_eq!(id_from_content("12345"), "12345");
    assert_eq!(id_from_content("中文"), "中文");
    assert_eq!(id_from_content("にほんご"), "にほんご");
    assert_eq!(id_from_content("한국어"), "한국어");
    assert_eq!(id_from_content(""), "");
    assert_eq!(id_from_content("中文標題 CJK title"), "中文標題-cjk-title");
    assert_eq!(id_from_content("Über"), "über");
}

#[test]
fn test_id_from_content_consecutive_hyphens_no_collapse() {
    assert_eq!(id_from_content("A  B"), "a--b");
}

#[test]
fn test_id_from_content_trailing_trim_then_drop() {
    assert_eq!(id_from_content("A "), "a");
    assert_eq!(id_from_content("A \u{1f47c}"), "a-");
}

#[test]
fn test_unique_id_first_use() {
    let mut used = UsedIds::new();
    assert_eq!(unique_id("features", &mut used), "features");
    assert_eq!(used.len(), 1);
}

#[test]
fn test_unique_id_dedup() {
    let mut used = UsedIds::new();
    assert_eq!(unique_id("features", &mut used), "features");
    assert_eq!(unique_id("features", &mut used), "features-1");
    assert_eq!(unique_id("features", &mut used), "features-2");
}

#[test]
fn test_render_markdown_with_heading_h2() {
    let (html, h) = render_markdown_with_heading("## Features\n\nbullets");
    assert!(html.contains("<h2>Features</h2>"));
    let h = h.expect("heading captured");
    assert_eq!(h.level, 2);
    assert_eq!(h.text, "Features");
}

#[test]
fn test_render_markdown_with_heading_inline_code() {
    let (html, h) = render_markdown_with_heading("## Code `x` Example");
    assert!(html.contains("<h2>Code <code>x</code> Example</h2>"));
    let h = h.expect("heading captured");
    assert_eq!(h.level, 2);
    assert_eq!(h.text, "Code x Example");
}

#[test]
fn test_render_markdown_with_heading_no_heading() {
    let (_html, h) = render_markdown_with_heading("Just prose\n");
    assert!(h.is_none());
}

#[test]
fn test_render_markdown_with_heading_levels() {
    for (md, want) in [
        ("### Three", 3u8),
        ("#### Four", 4),
        ("##### Five", 5),
        ("###### Six", 6),
    ] {
        let (_html, h) = render_markdown_with_heading(md);
        assert_eq!(h.expect("heading captured").level, want, "input {md:?}");
    }
}

#[test]
fn test_render_markdown_with_heading_picks_first() {
    let (html, h) = render_markdown_with_heading("## A\n\n### B\n");
    assert!(html.contains("<h2>A</h2>"));
    assert!(html.contains("<h3>B</h3>"));
    let h = h.expect("heading captured");
    assert_eq!(h.level, 2);
    assert_eq!(h.text, "A");
}

#[test]
fn test_anchorize_first_heading_basic() {
    let out = anchorize_first_heading("<h2>Features</h2>", "features");
    assert_eq!(
        out,
        r##"<h2 id="features"><a class="header" href="#features">Features</a></h2>"##
    );
}

#[test]
fn test_anchorize_first_heading_preserves_inner() {
    let out = anchorize_first_heading("<h2>Code <code>x</code> Example</h2>", "code-x-example");
    assert_eq!(
        out,
        r##"<h2 id="code-x-example"><a class="header" href="#code-x-example">Code <code>x</code> Example</a></h2>"##
    );
}

#[test]
fn test_anchorize_first_heading_no_heading() {
    let out = anchorize_first_heading("<p>no heading</p>", "x");
    assert_eq!(out, "<p>no heading</p>");
}

#[test]
fn test_anchorize_first_heading_preserves_trailing_content() {
    let out = anchorize_first_heading("<h2>Hi</h2>\n<p>body</p>", "hi");
    assert!(out.starts_with(r##"<h2 id="hi"><a class="header" href="#hi">Hi</a></h2>"##));
    assert!(out.ends_with("\n<p>body</p>"));
}

#[test]
fn test_render_presentation_anchors_first_heading() {
    let html = render_presentation("## Welcome\n\n---\n\n## Features", "Deck");
    assert!(html.contains(
        r##"<h2 id="welcome"><a class="header" href="#welcome">Welcome</a></h2>"##
    ));
    assert!(html.contains(
        r##"<h2 id="features"><a class="header" href="#features">Features</a></h2>"##
    ));
}

#[test]
fn test_render_presentation_no_anchor_for_headingless_slide() {
    let html = render_presentation("## First\n\n---\n\nJust prose, no heading", "Deck");
    assert!(html.contains(r#"<h2 id="first">"#));
    assert!(html.contains("<p>Just prose, no heading</p>"));
    assert_eq!(html.matches("class=\"header\"").count(), 1);
}

#[test]
fn test_render_presentation_dedups_identical_heading_text() {
    let html = render_presentation("## Features\n\n---\n\n## Features", "Deck");
    assert!(html.contains(r#"<h2 id="features">"#));
    assert!(html.contains(r#"<h2 id="features-1">"#));
}

#[test]
fn test_render_presentation_subheadings_not_anchored() {
    let html = render_presentation("## Top\n\n### Sub\n", "Deck");
    assert!(html.contains(r##"<h2 id="top"><a class="header" href="#top">Top</a></h2>"##));
    assert!(html.contains("<h3>Sub</h3>"));
    assert!(!html.contains(r#"<h3 id="#));
}

#[test]
fn test_render_presentation_h1_not_anchored() {
    let html = render_presentation("# Solo H1\n", "Deck");
    assert!(html.contains("<h1>Solo H1</h1>"));
    assert!(!html.contains("class=\"header\""));
}

#[test]
fn test_render_presentation_anchored_block_has_no_blank_lines() {
    let html = render_presentation(
        "## Welcome\n\nIntro\n\n---\n\n## Features\n\n```\ncode\n```",
        "Deck",
    );
    let div_block = html.split("\n\n<script>").next().unwrap();
    assert!(div_block.contains(r#"<h2 id="welcome">"#));
    for (i, line) in div_block.lines().enumerate() {
        assert!(
            !line.trim().is_empty(),
            "Blank line at line {}: {:?}",
            i + 1,
            line
        );
    }
}

#[test]
fn test_slideshow_js_toc_deep_link() {
    assert!(SLIDESHOW_JS.contains("getElementById(location.hash.slice(1))"));
    assert!(SLIDESHOW_JS.contains("heading.closest('.slide')"));
    assert!(SLIDESHOW_JS.contains("Array.prototype.indexOf.call(slides"));
    assert!(SLIDESHOW_JS.contains("addEventListener('hashchange'"));
}

// ---- further cases ----

#[test]
fn separator_lines_allow_trailing_blanks_only() {
    let slides = split_slides("a\n--- \t\nb\n----\nc\n ---\nd\n---x\ne");
    assert_eq!(slides, vec!["a".to_string(), "b\n----\nc\n ---\nd\n---x\ne".to_string()]);
}

#[test]
fn separator_with_carriage_return_is_not_a_separator() {
    let slides = split_slides("a\n---\r\nb");
    assert_eq!(slides, vec!["a\n---\r\nb".to_string()]);
}

#[test]
fn empty_slides_are_dropped() {
    let slides = split_slides("---\n---\n\n  \n---\nonly\n---\n");
    assert_eq!(slides, vec!["only".to_string()]);
    assert!(split_slides("").is_empty());
}

#[test]
fn notes_marker_must_start_a_line() {
    assert_eq!(strip_notes("Note: first line is a note"), "");
    assert_eq!(strip_notes("Note:\nremember the demo"), "");
    assert_eq!(strip_notes("A\nNotes:\nx\nNote:\ny"), "A");
    assert_eq!(strip_notes("a\nNotes: x\nb\nNote: y"), "a");
    assert_eq!(strip_notes("text  \t\nNote:\nz"), "text");
    assert_eq!(strip_notes("see Note: inline\nNotesy"), "see Note: inline\nNotesy");
}

#[test]
fn prevent_blank_lines_follows_str_lines() {
    assert_eq!(prevent_blank_lines(""), "");
    assert_eq!(prevent_blank_lines("a\n"), "a");
    assert_eq!(prevent_blank_lines("a\r\n \r\nb\n\n"), "a\n<!-- -->\nb\n<!-- -->");
    assert_eq!(prevent_blank_lines("\n"), "<!-- -->");
}

#[test]
fn anchor_drops_leading_white_space_and_needs_the_closing_tag() {
    assert_eq!(
        anchorize_first_heading("\n <h3>T</h3>x", "t"),
        r##"<h3 id="t"><a class="header" href="#t">T</a></h3>x"##
    );
    assert_eq!(anchorize_first_heading("<h3>T</h4>", "t"), "<h3>T</h4>");
    assert_eq!(anchorize_first_heading("<h7>T</h7>", "t"), "<h7>T</h7>");
}

#[test]
fn unique_id_skips_ids_already_taken() {
    let mut used = UsedIds::new();
    assert!(used.insert("x-1".to_string()));
    assert!(!used.insert("x-1".to_string()));
    assert_eq!(unique_id("x", &mut used), "x");
    assert_eq!(unique_id("x", &mut used), "x-2");
    assert!(used.contains("x-2"));
    assert_eq!(used.len(), 3);
}

#[test]
fn repeated_titles_get_distinct_ids_in_a_deck() {
    let html = render_presentation("## Demo\n---\n## Demo\n---\n## Demo\n---\n## Demo-1", "Deck");
    assert!(html.contains(r#"<h2 id="demo">"#));
    assert!(html.contains(r#"<h2 id="demo-1">"#));
    assert!(html.contains(r#"<h2 id="demo-2">"#));
    assert!(html.contains(r#"<h2 id="demo-1-1">"#));
    assert!(html.contains("1 / 4"));
}

#[test]
fn chapter_name_is_escaped_on_one_line() {
    assert_eq!(escape_html("A & <B> \"c\"\nd"), "A &amp; &lt;B&gt; &quot;c&quot;&#10;d");
    let html = render_presentation("x", "Q&A\n\nTime");
    assert!(html.contains("<div class=\"slides-chapter\"><span>Q&amp;A&#10;&#10;Time</span></div>"));
}

#[test]
fn deck_layout_is_exact() {
    let html = render_presentation("a", "N");
    let expected_head = "<div class=\"slides-container\">\n<div class=\"slide active\">\n<p>a</p></div>\n<div class=\"slides-zone prev\"></div>\n<div class=\"slides-zone next\"></div>\n<div class=\"slides-chapter\"><span>N</span></div>\n<div class=\"slides-nav\"><span class=\"slides-progress\">1 / 1</span></div>\n</div>\n\n<script>\n";
    assert!(html.starts_with(expected_head));
    assert!(html.ends_with("\n</script>"));
    assert_eq!(html.len(), expected_head.len() + SLIDESHOW_JS.len() + "\n</script>".len());
}

#[test]
fn many_slides_count_in_progress_label() {
    let md = (0..12).map(|i| format!("s{i}")).collect::<Vec<_>>().join("\n---\n");
    let html = render_presentation(&md, "N");
    assert!(html.contains("1 / 12"));
    assert_eq!(html.matches("<div class=\"slide\">").count(), 11);
    assert_eq!(html.matches("<div class=\"slide active\">").count(), 1);
}

#[test]
fn render_markdown_uses_tables_strikethrough_and_tasks() {
    let html = render_markdown("|a|\n|-|\n|b|\n\n~~x~~\n\n- [x] t");
    assert!(html.contains("<table>"));
    assert!(html.contains("<del>x</del>"));
    assert!(html.contains("checkbox"));
    assert_eq!(render_markdown("# Hello"), "<h1>Hello</h1>\n");
}

#[test]
fn ids_use_unicode_properties() {
    assert_eq!(id_from_content("  ÉTÉ\u{a0}2024 "), "été-2024");
    assert_eq!(id_from_content("a<b>\"c\""), "abc");
}

#[test]
fn joining_two_decks_with_a_separator_concatenates_their_slides() {
    let a = "# One\n\nfirst\n--- not a separator";
    let b = "\n## Two\r\n---x\nlast\n";
    let joined = format!("{a}\n---\n{b}");
    let mut expected = split_slides(a);
    expected.extend(split_slides(b));
    assert_eq!(split_slides(&joined), expected);
    assert_eq!(expected.len(), 2);
    let blank = "  \n\t";
    let joined = format!("{blank}\n---\n{b}");
    assert_eq!(split_slides(&joined), split_slides(b));
}

#[test]
fn id_of_an_ascii_id_is_itself() {
    for text in ["  Hello, World! ", "Foo_Bar-Baz  qux", "`code` & <b>", "A\tB\nC", "---", "", "\u{3000}Deck One\u{a0}"] {
        let id = id_from_content(text);
        assert_eq!(id_from_content(&id), id);
    }
}

#[test]
fn white_space_outside_ascii_is_the_unicode_set() {
    assert_eq!(id_from_content("\u{3000}Title\u{85}\u{2029}"), "title");
    assert_eq!(id_from_content("a\u{2003}b\u{202f}c\u{205f}d\u{1680}e"), "a-b-c-d-e");
    assert_eq!(id_from_content("a\u{200b}b\u{180e}c"), "abc");
    assert_eq!(strip_notes("Body\u{2028}\u{a0}\nNote:\nx"), "Body");
    assert_eq!(split_slides("\u{3000}\n---\n\u{2000}x\u{200a}"), vec!["x".to_string()]);
}
