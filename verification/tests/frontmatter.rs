use mdbook_slides::frontmatter::{split_frontmatter, FrontmatterBlock, FrontmatterConfig};

/// Reads the `slides` flag the way the preprocessor's YAML step does.
fn slides_flag(block: &Option<FrontmatterBlock>) -> bool {
    match block {
        Some(b) => {
            let value: serde_yaml_ng::Value = serde_yaml_ng::from_str(&b.yaml).unwrap();
            value.get("slides").and_then(|v| v.as_bool()).unwrap_or(false)
        }
        None => FrontmatterConfig::default().slides,
    }
}

fn content_after(input: &str, block: &Option<FrontmatterBlock>) -> String {
    match block {
        Some(b) => b.body.clone(),
        None => input.to_string(),
    }
}

#[test]
fn test_parse_slides_frontmatter() {
    let input = "---\nslides: true\ntheme: solarized\n---\n# Slide 1\n---\n# Slide 2\n";
    let block = split_frontmatter(input);
    assert!(slides_flag(&block));
    assert_eq!(content_after(input, &block), "# Slide 1\n---\n# Slide 2\n");
}

#[test]
fn test_parse_frontmatter_blank_line_before_close() {
    let input = "---\nslides: true\n\n---\n# Slide 1\n";
    let block = split_frontmatter(input);
    assert!(slides_flag(&block));
    assert_eq!(content_after(input, &block), "# Slide 1\n");
}

#[test]
fn test_no_frontmatter() {
    let input = "# Just markdown\n---\nMore content\n";
    let block = split_frontmatter(input);
    assert!(!slides_flag(&block));
    assert_eq!(content_after(input, &block), input);
}

#[test]
fn test_slide_separator_not_confused_with_frontmatter() {
    let input = "Some text\n---\nMore text\n---\nEven more\n";
    let block = split_frontmatter(input);
    assert!(!slides_flag(&block));
    assert_eq!(content_after(input, &block), input);
}

#[test]
fn test_unknown_frontmatter_fields_ignored() {
    let input = "---\nslides: true\ntheme: white\nrevealOptions:\n  transition: fade\n---\nContent\n";
    let block = split_frontmatter(input);
    assert!(slides_flag(&block));
    assert_eq!(content_after(input, &block), "Content\n");
}

#[test]
fn frontmatter_yaml_is_the_text_between_the_fences() {
    let b = split_frontmatter("--- \t\nslides: true\n--- \nrest").expect("block");
    assert_eq!(b.yaml, "slides: true");
    assert_eq!(b.body, "rest");
    let b = split_frontmatter("---\n\n---\n").expect("block");
    assert_eq!(b.yaml, "");
    assert_eq!(b.body, "");
}

#[test]
fn frontmatter_needs_fences_on_their_own_lines() {
    assert!(split_frontmatter("---\nslides: true\n---").is_none());
    assert!(split_frontmatter("---\n---\nx\n").is_none());
    assert!(split_frontmatter(" ---\na: 1\n---\n").is_none());
    assert!(split_frontmatter("---\r\na: 1\n---\n").is_none());
    assert!(split_frontmatter("").is_none());
    assert!(!FrontmatterConfig::default().slides);
}
