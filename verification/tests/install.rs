use mdbook_slides::install::{
    install_book_toml, plan_output, plan_preprocessor, BookToml, InstallError, TableSlot,
};

fn book(additional_css: Option<Vec<&str>>) -> BookToml {
    BookToml {
        preprocessor: TableSlot::Missing,
        has_slides_preprocessor: false,
        book_src: None,
        output: TableSlot::Table,
        output_html: TableSlot::Table,
        additional_css: additional_css.map(|v| v.into_iter().map(String::from).collect()),
    }
}

#[test]
fn fresh_book_gets_everything() {
    let b = book(None);
    let p = plan_preprocessor(&b);
    assert!(p.add_preprocessor_table);
    assert!(p.add_slides_entry);
    assert_eq!(p.source_dir, "src");
    let o = plan_output(&b);
    assert!(!o.add_output_table);
    assert!(!o.add_html_table);
    assert_eq!(o.css_to_add, vec!["src/css/slides.css".to_string(), "src/css/slides-print.css".to_string()]);
}

#[test]
fn existing_entries_are_not_repeated() {
    let b = book(Some(vec!["theme.css", "src/css/slides.css"]));
    let o = plan_output(&b);
    assert_eq!(o.css_to_add, vec!["src/css/slides-print.css".to_string()]);
    let again = book(Some(vec!["theme.css", "src/css/slides.css", "src/css/slides-print.css"]));
    assert!(plan_output(&again).css_to_add.is_empty());
}

#[test]
fn configured_source_dir_and_existing_preprocessor() {
    let mut b = book(None);
    b.preprocessor = TableSlot::Table;
    b.has_slides_preprocessor = true;
    b.book_src = Some("content".to_string());
    b.output = TableSlot::Missing;
    b.output_html = TableSlot::Missing;
    let p = plan_preprocessor(&b);
    assert!(!p.add_preprocessor_table);
    assert!(!p.add_slides_entry);
    assert_eq!(p.source_dir, "content");
    let o = plan_output(&b);
    assert!(o.add_output_table);
    assert!(o.add_html_table);
}

#[test]
fn facts_are_read_from_book_toml() {
    let text = "[book]\nsrc = \"content\"\n[preprocessor.slides]\n[output.html]\nadditional-css = [\"a.css\", 3]\n";
    let (toml, src) = install_book_toml(text).expect("installed");
    assert_eq!(src, "content");
    assert!(!toml.contains("command"));
    assert_eq!(toml.matches("[preprocessor.slides]").count(), 1);
    assert_eq!(toml.matches("[output.html]").count(), 1);
    assert_eq!(toml.matches("\"src/css/slides.css\"").count(), 1);
    assert_eq!(toml.matches("\"src/css/slides-print.css\"").count(), 1);
    assert!(toml.contains("\"a.css\""));
    let a = toml.find("\"a.css\"").unwrap();
    let b = toml.find("\"src/css/slides.css\"").unwrap();
    let c = toml.find("\"src/css/slides-print.css\"").unwrap();
    assert!(a < b && b < c);
}

#[test]
fn install_into_a_fresh_book_toml() {
    let (toml, src) = install_book_toml("[book]\ntitle = \"T\"\n").expect("installed");
    assert_eq!(src, "src");
    assert_eq!(
        toml,
        "[book]\ntitle = \"T\"\n\n[preprocessor]\n\n[preprocessor.slides]\ncommand = \"mdbook-slides\"\n\n[output]\n\n[output.html]\nadditional-css = [\"src/css/slides.css\", \"src/css/slides-print.css\"]\n"
    );
    let (again, _) = install_book_toml(&toml).expect("installed again");
    assert_eq!(again, toml);
}

#[test]
fn install_twice_changes_nothing_more() {
    let (once, _) = install_book_toml("[book]\nsrc = \"pages\"\n[output.html]\nadditional-css = [\"theme.css\"]\n")
        .expect("installed");
    let (twice, src) = install_book_toml(&once).expect("installed again");
    assert_eq!(src, "pages");
    assert_eq!(once, twice);
    assert!(twice.contains("additional-css = [\"theme.css\", \"src/css/slides.css\", \"src/css/slides-print.css\"]"));
}

#[test]
fn install_refuses_what_the_original_panics_on() {
    assert!(matches!(install_book_toml("[book\n"), Err(InstallError::NotToml)));
    assert!(matches!(install_book_toml("preprocessor = 1\n"), Err(InstallError::PreprocessorNotATable)));
    match install_book_toml("[book]\nsrc = \"s\"\n[output]\nhtml = \"x\"\n") {
        Err(InstallError::OutputNotATable(dir)) => assert_eq!(dir, "s"),
        _ => panic!("expected OutputNotATable"),
    }
    assert!(matches!(install_book_toml("output = []\n"), Err(InstallError::OutputNotATable(_))));
}
