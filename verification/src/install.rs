//! The `install` subcommand's work on `book.toml`: what it reads from the
//! document, what it decides to add, and the rewritten text; and where the
//! stylesheets go. The caller reads and writes the files.

use vstd::prelude::*;
use crate::html_template::strings_view;
use toml_edit::{DocumentMut, Item, Table, Value};

verus! {

/// What a key of `book.toml` holds, as far as installing cares.
#[derive(Debug, Clone, Copy, PartialEq, Eq, Structural)]
pub enum TableSlot {
    /// The key is absent.
    Missing,
    /// The key holds a table.
    Table,
    /// The key holds something else.
    NotTable,
}

/// What installing reads from `book.toml`.
pub struct BookToml {
    /// The `preprocessor` key.
    pub preprocessor: TableSlot,
    /// Whether `preprocessor` is a table with a `slides` key.
    pub has_slides_preprocessor: bool,
    /// The string at `book.src`, when there is one.
    pub book_src: Option<String>,
    /// The `output` key.
    pub output: TableSlot,
    /// The `html` key of the `output` table (`Missing` when there is no
    /// `output` table).
    pub output_html: TableSlot,
    /// The string entries of `output.html.additional-css`, when it is an
    /// array.
    pub additional_css: Option<Vec<String>>,
}

/// Changes to the `book` side of `book.toml` and the stylesheet directory.
pub struct PreprocessorPlan {
    /// Add an empty `preprocessor` table.
    pub add_preprocessor_table: bool,
    /// Add `[preprocessor.slides]` with `command = "mdbook-slides"`.
    pub add_slides_entry: bool,
    /// The book's source directory, relative to the book's root.
    pub source_dir: String,
}

/// Changes to the `output.html` side of `book.toml`.
pub struct OutputPlan {
    /// Add an empty `output` table.
    pub add_output_table: bool,
    /// Add an empty `output.html` table.
    pub add_html_table: bool,
    /// The stylesheet paths to append to `additional-css`, in order.
    pub css_to_add: Vec<String>,
}

/// The command mdBook runs for the preprocessor.
pub const PREPROCESSOR_COMMAND: &'static str = "mdbook-slides";

/// The slideshow stylesheet's file name.
pub const SLIDES_CSS_FILE: &'static str = "slides.css";

/// The print stylesheet's file name.
pub const PRINT_CSS_FILE: &'static str = "slides-print.css";

/// The slideshow stylesheet as listed in `additional-css`.
pub const SLIDES_CSS_ENTRY: &'static str = "src/css/slides.css";

/// The print stylesheet as listed in `additional-css`.
pub const PRINT_CSS_ENTRY: &'static str = "src/css/slides-print.css";

/// The source directory: `book.src` when it is a string, else `src`.
pub open spec fn source_dir_of(book_src: Option<Seq<char>>) -> Seq<char> {
    match book_src {
        Some(s) => s,
        None => "src"@,
    }
}

pub open spec fn opt_string_view(s: Option<String>) -> Option<Seq<char>> {
    match s {
        Some(s) => Some(s@),
        None => None,
    }
}

/// Decides the `preprocessor` side of installing: add the tables that are
/// missing, and find the source directory.
pub fn plan_preprocessor(book: &BookToml) -> (p: PreprocessorPlan)
    requires
        book.preprocessor != TableSlot::NotTable,
    ensures
        p.add_preprocessor_table == (book.preprocessor == TableSlot::Missing),
        p.add_slides_entry == !book.has_slides_preprocessor,
        p.source_dir@ == source_dir_of(opt_string_view(book.book_src)),
{
    let source_dir = match &book.book_src {
        Some(s) => s.clone(),
        None => String::from_str("src"),
    };
    PreprocessorPlan {
        add_preprocessor_table: book.preprocessor == TableSlot::Missing,
        add_slides_entry: !book.has_slides_preprocessor,
        source_dir,
    }
}

/// The stylesheet entries missing from `existing`, in the order slideshow,
/// then print.
pub open spec fn css_to_add_of(existing: Seq<Seq<char>>) -> Seq<Seq<char>> {
    (if existing.contains(SLIDES_CSS_ENTRY@) {
        Seq::empty()
    } else {
        seq![SLIDES_CSS_ENTRY@]
    }) + (if existing.contains(PRINT_CSS_ENTRY@) {
        Seq::empty()
    } else {
        seq![PRINT_CSS_ENTRY@]
    })
}

pub open spec fn existing_css(book: &BookToml) -> Seq<Seq<char>> {
    match &book.additional_css {
        Some(v) => strings_view(v@),
        None => Seq::empty(),
    }
}

fn lists(entries: &Vec<String>, entry: &str) -> (b: bool)
    ensures
        b == strings_view(entries@).contains(entry@),
{
    let key = String::from_str(entry);
    let mut i: usize = 0;
    while i < entries.len()
        invariant
            key@ == entry@,
            i <= entries@.len(),
            forall|j: int| 0 <= j < i ==> strings_view(entries@)[j] != entry@,
        decreases entries@.len() - i,
    {
        if entries[i].eq(&key) {
            assert(strings_view(entries@)[i as int] == entry@);
            return true;
        }
        i = i + 1;
    }
    false
}

/// Decides the `output.html` side of installing: add the tables that are
/// missing, and append to `additional-css` each stylesheet not yet listed.
pub fn plan_output(book: &BookToml) -> (p: OutputPlan)
    requires
        book.output != TableSlot::NotTable,
        book.output_html != TableSlot::NotTable,
    ensures
        p.add_output_table == (book.output == TableSlot::Missing),
        p.add_html_table == (book.output_html == TableSlot::Missing),
        strings_view(p.css_to_add@) == css_to_add_of(existing_css(book)),
{
    let empty: Vec<String> = Vec::new();
    let existing: &Vec<String> = match &book.additional_css {
        Some(v) => v,
        None => &empty,
    };
    assert(strings_view(existing@) == existing_css(book));
    let mut css_to_add: Vec<String> = Vec::new();
    if !lists(existing, SLIDES_CSS_ENTRY) {
        css_to_add.push(String::from_str(SLIDES_CSS_ENTRY));
    }
    let ghost first = strings_view(css_to_add@);
    if !lists(existing, PRINT_CSS_ENTRY) {
        css_to_add.push(String::from_str(PRINT_CSS_ENTRY));
        assert(strings_view(css_to_add@) == first + seq![PRINT_CSS_ENTRY@]);
    } else {
        assert(strings_view(css_to_add@) == first + Seq::<Seq<char>>::empty());
    }
    OutputPlan {
        add_output_table: book.output == TableSlot::Missing,
        add_html_table: book.output_html == TableSlot::Missing,
        css_to_add,
    }
}

/// Law: after installing, both stylesheets are listed; and installing again
/// appends nothing.
pub proof fn law_install_css_idempotent(existing: Seq<Seq<char>>)
    ensures
        (existing + css_to_add_of(existing)).contains(SLIDES_CSS_ENTRY@),
        (existing + css_to_add_of(existing)).contains(PRINT_CSS_ENTRY@),
        css_to_add_of(existing + css_to_add_of(existing)) == Seq::<Seq<char>>::empty(),
{
    let after = existing + css_to_add_of(existing);
    let added = css_to_add_of(existing);
    assert(after.contains(SLIDES_CSS_ENTRY@)) by {
        if existing.contains(SLIDES_CSS_ENTRY@) {
            let i = choose|i: int| 0 <= i < existing.len() && existing[i] == SLIDES_CSS_ENTRY@;
            assert(after[i] == existing[i]);
        } else {
            assert(after[existing.len() as int] == SLIDES_CSS_ENTRY@);
        }
    }
    assert(after.contains(PRINT_CSS_ENTRY@)) by {
        if existing.contains(PRINT_CSS_ENTRY@) {
            let i = choose|i: int| 0 <= i < existing.len() && existing[i] == PRINT_CSS_ENTRY@;
            assert(after[i] == existing[i]);
        } else {
            assert(after[after.len() - 1] == PRINT_CSS_ENTRY@);
        }
    }
}

// ---------------------------------------------------------------------
// Reading and rewriting book.toml
// ---------------------------------------------------------------------

/// What toml_edit reports of `book.toml`: for `preprocessor`, `output` and
/// `output.html`, whether the item is a table (`None` when absent); whether
/// `preprocessor.slides` is present; and the string at `book.src`.
pub struct TomlFacts {
    pub preprocessor: Option<bool>,
    pub slides_entry: bool,
    pub book_src: Option<String>,
    pub output: Option<bool>,
    pub output_html: Option<bool>,
}

/// The mathematical value of [`TomlFacts`].
pub ghost struct TomlFactsView {
    pub preprocessor: Option<bool>,
    pub slides_entry: bool,
    pub book_src: Option<Seq<char>>,
    pub output: Option<bool>,
    pub output_html: Option<bool>,
}

pub open spec fn entries_view(es: Seq<Option<String>>) -> Seq<Option<Seq<char>>> {
    es.map_values(|e: Option<String>| opt_string_view(e))
}

impl View for TomlFacts {
    type V = TomlFactsView;

    open spec fn view(&self) -> TomlFactsView {
        TomlFactsView {
            preprocessor: self.preprocessor,
            slides_entry: self.slides_entry,
            book_src: opt_string_view(self.book_src),
            output: self.output,
            output_html: self.output_html,
        }
    }
}

/// What toml_edit reads from `text` as a `DocumentMut` (see
/// [`TomlFacts`]); `None` when the text does not parse.
pub uninterp spec fn toml_facts(text: Seq<char>) -> Option<TomlFactsView>;

/// The entries of `output.html.additional-css` in the document toml_edit
/// parses from `text`, each as its string when it is one; `None` when the
/// text does not parse or that item is not an array.
pub uninterp spec fn toml_css_entries(text: Seq<char>) -> Option<Seq<Option<Seq<char>>>>;

/// The text toml_edit prints after setting the top-level `key` of the
/// document parsed from `text` to a new empty table.
pub uninterp spec fn toml_table_added(text: Seq<char>, key: Seq<char>) -> Option<Seq<char>>;

/// The text toml_edit prints after inserting, into the table `parent`, the
/// table `key` holding `field = value`.
pub uninterp spec fn toml_entry_added(
    text: Seq<char>,
    parent: Seq<char>,
    key: Seq<char>,
    field: Seq<char>,
    value: Seq<char>,
) -> Option<Seq<char>>;

/// The text toml_edit prints after inserting, into the table `parent`, a
/// new empty table `key`.
pub uninterp spec fn toml_subtable_added(
    text: Seq<char>,
    parent: Seq<char>,
    key: Seq<char>,
) -> Option<Seq<char>>;

/// The text toml_edit prints after setting `parent.key.field` to the array
/// already there (or a new one when it is not an array) with `entries`
/// appended.
pub uninterp spec fn toml_css_appended(
    text: Seq<char>,
    parent: Seq<char>,
    key: Seq<char>,
    field: Seq<char>,
    entries: Seq<Seq<char>>,
) -> Option<Seq<char>>;

pub open spec fn opt_chars(r: Option<String>) -> Option<Seq<char>> {
    match r {
        Some(s) => Some(s@),
        None => None,
    }
}

/// Parses `text` with toml_edit and reads the facts install needs.
#[verifier::external_body]
pub(crate) fn read_toml_facts(text: &str) -> (r: Option<TomlFacts>)
    ensures
        match r {
            Some(f) => toml_facts(text@) == Some(f@),
            None => toml_facts(text@) is None,
        },
{
    let doc: DocumentMut = text.parse().ok()?;
    let pre = doc.get("preprocessor");
    let out = doc.get("output");
    Some(TomlFacts {
        preprocessor: pre.map(Item::is_table),
        slides_entry: pre.and_then(|p| p.get("slides")).is_some(),
        book_src: doc.get("book").and_then(|b| b.get("src")?.as_str()).map(String::from),
        output: out.map(Item::is_table),
        output_html: out.and_then(|o| o.get("html")).map(Item::is_table),
    })
}

pub open spec fn opt_entries_view(r: Option<Vec<Option<String>>>) -> Option<Seq<Option<Seq<char>>>> {
    match r {
        Some(es) => Some(entries_view(es@)),
        None => None,
    }
}

/// Parses `text` with toml_edit and reads `output.html.additional-css` when
/// it is an array.
#[verifier::external_body]
pub(crate) fn read_toml_css(text: &str) -> (r: Option<Vec<Option<String>>>)
    ensures
        opt_entries_view(r) == toml_css_entries(text@),
{
    let doc: DocumentMut = text.parse().ok()?;
    let css = doc.get("output")?.get("html")?.get("additional-css")?.as_array()?;
    Some(css.iter().map(|v| v.as_str().map(String::from)).collect())
}

/// toml_edit: parse `text`, set `doc[key]` to a new empty table, print.
#[verifier::external_body]
fn toml_with_table(text: &str, key: &str) -> (r: Option<String>)
    ensures
        opt_chars(r) == toml_table_added(text@, key@),
{
    let mut doc = text.parse::<DocumentMut>().ok()?;
    doc[key] = Item::Table(Table::new());
    Some(doc.to_string())
}

/// toml_edit: parse `text`, insert into the table `parent` the table `key`
/// holding `field = value`, print.
#[verifier::external_body]
fn toml_with_entry(text: &str, parent: &str, key: &str, field: &str, value: &str) -> (r: Option<
    String,
>)
    ensures
        opt_chars(r) == toml_entry_added(text@, parent@, key@, field@, value@),
{
    let mut doc = text.parse::<DocumentMut>().ok()?;
    let mut entry = Table::new();
    entry.insert(field, Item::Value(Value::from(value)));
    doc.get_mut(parent)?.as_table_mut()?.insert(key, Item::Table(entry));
    Some(doc.to_string())
}

/// toml_edit: parse `text`, insert into the table `parent` a new empty table
/// `key`, print.
#[verifier::external_body]
fn toml_with_subtable(text: &str, parent: &str, key: &str) -> (r: Option<String>)
    ensures
        opt_chars(r) == toml_subtable_added(text@, parent@, key@),
{
    let mut doc = text.parse::<DocumentMut>().ok()?;
    doc.get_mut(parent)?.as_table_mut()?.insert(key, Item::Table(Table::new()));
    Some(doc.to_string())
}

/// toml_edit: parse `text`, set `parent.key.field` to its array (or a new
/// one) with `entries` pushed, print.
#[verifier::external_body]
fn toml_with_css(text: &str, parent: &str, key: &str, field: &str, entries: &Vec<String>) -> (r:
    Option<String>)
    ensures
        opt_chars(r) == toml_css_appended(text@, parent@, key@, field@, strings_view(entries@)),
{
    let mut doc = text.parse::<DocumentMut>().ok()?;
    let table = doc.get_mut(parent)?.as_table_mut()?.get_mut(key)?.as_table_mut()?;
    let mut arr = table.get(field).and_then(Item::as_array).cloned().unwrap_or_default();
    for entry in entries {
        arr.push(entry.as_str());
    }
    table.insert(field, Item::Value(Value::Array(arr)));
    Some(doc.to_string())
}

/// The slot a fact describes.
pub open spec fn slot_of(o: Option<bool>) -> TableSlot {
    match o {
        None => TableSlot::Missing,
        Some(true) => TableSlot::Table,
        Some(false) => TableSlot::NotTable,
    }
}

/// The string entries, in order.
pub open spec fn string_entries(es: Seq<Option<Seq<char>>>) -> Seq<Seq<char>>
    decreases es.len(),
{
    if es.len() == 0 {
        Seq::empty()
    } else {
        string_entries(es.drop_last()) + match es.last() {
            Some(s) => seq![s],
            None => Seq::empty(),
        }
    }
}

/// The string entries of `additional-css`, none when it is not an array.
pub open spec fn css_entries_of(css: Option<Seq<Option<Seq<char>>>>) -> Seq<Seq<char>> {
    match css {
        Some(es) => string_entries(es),
        None => Seq::empty(),
    }
}

fn slot(o: Option<bool>) -> (s: TableSlot)
    ensures
        s == slot_of(o),
{
    match o {
        None => TableSlot::Missing,
        Some(true) => TableSlot::Table,
        Some(false) => TableSlot::NotTable,
    }
}

/// What installing reads, from what toml_edit reports.
pub fn book_toml_of(f: &TomlFacts, css: Option<Vec<Option<String>>>) -> (b: BookToml)
    ensures
        b.preprocessor == slot_of(f@.preprocessor),
        b.has_slides_preprocessor == f@.slides_entry,
        opt_string_view(b.book_src) == f@.book_src,
        b.output == slot_of(f@.output),
        b.output_html == slot_of(f@.output_html),
        b.additional_css.is_some() == css.is_some(),
        existing_css(&b) == css_entries_of(opt_entries_view(css)),
{
    let additional_css = match &css {
        None => None,
        Some(es) => {
            let mut out: Vec<String> = Vec::new();
            let mut i: usize = 0;
            while i < es.len()
                invariant
                    i <= es@.len(),
                    strings_view(out@) == string_entries(entries_view(es@).take(i as int)),
                decreases es@.len() - i,
            {
                let ghost before = strings_view(out@);
                match &es[i] {
                    Some(s) => {
                        out.push(s.clone());
                        assert(strings_view(out@) == before.push(s@));
                    },
                    None => {},
                }
                assert(entries_view(es@).take(i + 1).drop_last() == entries_view(es@).take(i as int));
                i = i + 1;
            }
            assert(entries_view(es@).take(es@.len() as int) == entries_view(es@));
            Some(out)
        },
    };
    let book_src = match &f.book_src {
        Some(s) => Some(s.clone()),
        None => None,
    };
    BookToml {
        preprocessor: slot(f.preprocessor),
        has_slides_preprocessor: f.slides_entry,
        book_src,
        output: slot(f.output),
        output_html: slot(f.output_html),
        additional_css,
    }
}

/// Applies `edit` to text that is still there, when `apply` holds.
pub open spec fn then_edit(
    t: Option<Seq<char>>,
    apply: bool,
    edit: spec_fn(Seq<char>) -> Option<Seq<char>>,
) -> Option<Seq<char>> {
    match t {
        Some(x) => if apply {
            edit(x)
        } else {
            Some(x)
        },
        None => None,
    }
}

/// `book.toml` after installing: the `preprocessor` table when missing,
/// `[preprocessor.slides]` with `command = "mdbook-slides"` when missing,
/// the `output` and `output.html` tables when missing, then the stylesheets
/// not yet listed appended to `output.html.additional-css`.
pub open spec fn installed_toml(
    text: Seq<char>,
    f: TomlFactsView,
    css: Option<Seq<Option<Seq<char>>>>,
) -> Option<Seq<char>> {
    let t1 = then_edit(
        Some(text),
        f.preprocessor is None,
        |x: Seq<char>| toml_table_added(x, "preprocessor"@),
    );
    let t2 = then_edit(
        t1,
        !f.slides_entry,
        |x: Seq<char>| toml_entry_added(x, "preprocessor"@, "slides"@, "command"@, PREPROCESSOR_COMMAND@),
    );
    let t3 = then_edit(t2, f.output is None, |x: Seq<char>| toml_table_added(x, "output"@));
    let t4 = then_edit(
        t3,
        f.output_html is None,
        |x: Seq<char>| toml_subtable_added(x, "output"@, "html"@),
    );
    then_edit(
        t4,
        true,
        |x: Seq<char>|
            toml_css_appended(x, "output"@, "html"@, "additional-css"@, css_to_add_of(css_entries_of(css))),
    )
}

/// Why installing into a `book.toml` text failed.
#[derive(Debug)]
pub enum InstallError {
    /// The text is not TOML.
    NotToml,
    /// `preprocessor` holds something other than a table.
    PreprocessorNotATable,
    /// `output` or `output.html` holds something other than a table; the
    /// source directory is given, since the stylesheets go there first.
    OutputNotATable(String),
    /// toml_edit did not give back a document after an edit.
    EditFailed,
}

/// Installs the preprocessor into the text of a `book.toml`: returns the new
/// text and the book's source directory (where the stylesheets go).
pub fn install_book_toml(text: &str) -> (r: Result<(String, String), InstallError>)
    ensures
        match toml_facts(text@) {
            None => r matches Err(InstallError::NotToml),
            Some(f) => if f.preprocessor == Some(false) {
                r matches Err(InstallError::PreprocessorNotATable)
            } else if f.output == Some(false) || f.output_html == Some(false) {
                (r matches Err(InstallError::OutputNotATable(dir)) && dir@ == source_dir_of(f.book_src))
            } else {
                match installed_toml(text@, f, toml_css_entries(text@)) {
                    Some(t) => (r matches Ok((toml, dir)) && toml@ == t && dir@ == source_dir_of(
                        f.book_src,
                    )),
                    None => r matches Err(InstallError::EditFailed),
                }
            },
        },
{
    let facts = match read_toml_facts(text) {
        Some(f) => f,
        None => return Err(InstallError::NotToml),
    };
    let ghost f = facts@;
    let css = read_toml_css(text);
    let book = book_toml_of(&facts, css);
    if book.preprocessor == TableSlot::NotTable {
        return Err(InstallError::PreprocessorNotATable);
    }
    let pre = plan_preprocessor(&book);
    if book.output == TableSlot::NotTable || book.output_html == TableSlot::NotTable {
        return Err(InstallError::OutputNotATable(pre.source_dir));
    }
    let out = plan_output(&book);
    let mut toml = String::from_str(text);
    let ghost cur: Option<Seq<char>> = Some(text@);
    if pre.add_preprocessor_table {
        match toml_with_table(toml.as_str(), "preprocessor") {
            Some(t) => toml = t,
            None => return Err(InstallError::EditFailed),
        }
    }
    assert(Some(toml@) == then_edit(
        Some(text@),
        f.preprocessor is None,
        |x: Seq<char>| toml_table_added(x, "preprocessor"@),
    ));
    let ghost t1 = toml@;
    if pre.add_slides_entry {
        match toml_with_entry(toml.as_str(), "preprocessor", "slides", "command", PREPROCESSOR_COMMAND) {
            Some(t) => toml = t,
            None => return Err(InstallError::EditFailed),
        }
    }
    assert(Some(toml@) == then_edit(
        Some(t1),
        !f.slides_entry,
        |x: Seq<char>| toml_entry_added(x, "preprocessor"@, "slides"@, "command"@, PREPROCESSOR_COMMAND@),
    ));
    let ghost t2 = toml@;
    if out.add_output_table {
        match toml_with_table(toml.as_str(), "output") {
            Some(t) => toml = t,
            None => return Err(InstallError::EditFailed),
        }
    }
    assert(Some(toml@) == then_edit(Some(t2), f.output is None, |x: Seq<char>| toml_table_added(x, "output"@)));
    let ghost t3 = toml@;
    if out.add_html_table {
        match toml_with_subtable(toml.as_str(), "output", "html") {
            Some(t) => toml = t,
            None => return Err(InstallError::EditFailed),
        }
    }
    assert(Some(toml@) == then_edit(
        Some(t3),
        f.output_html is None,
        |x: Seq<char>| toml_subtable_added(x, "output"@, "html"@),
    ));
    let ghost t4 = toml@;
    match toml_with_css(toml.as_str(), "output", "html", "additional-css", &out.css_to_add) {
        Some(t) => toml = t,
        None => return Err(InstallError::EditFailed),
    }
    Ok((toml, pre.source_dir))
}

} // verus!

verus! {

/// The edits that install makes after the `preprocessor` ones: the `output`
/// and `output.html` tables when missing, then the stylesheets not yet
/// listed appended to `output.html.additional-css`.
pub open spec fn output_edits(
    t: Option<Seq<char>>,
    f: TomlFactsView,
    css: Option<Seq<Option<Seq<char>>>>,
) -> Option<Seq<char>> {
    let t3 = then_edit(t, f.output is None, |x: Seq<char>| toml_table_added(x, "output"@));
    let t4 = then_edit(
        t3,
        f.output_html is None,
        |x: Seq<char>| toml_subtable_added(x, "output"@, "html"@),
    );
    then_edit(
        t4,
        true,
        |x: Seq<char>|
            toml_css_appended(x, "output"@, "html"@, "additional-css"@, css_to_add_of(css_entries_of(css))),
    )
}

/// Law: installing registers the preprocessor. The `[preprocessor]` table is
/// added only when missing; the `slides` entry with `command =
/// "mdbook-slides"` is added exactly when `preprocessor.slides` is missing,
/// whether or not the `[preprocessor]` table was already there; the output
/// edits then apply to that text.
pub proof fn law_install_adds_slides_entry(
    text: Seq<char>,
    f: TomlFactsView,
    css: Option<Seq<Option<Seq<char>>>>,
)
    ensures
        ({
            let t1 = if f.preprocessor is None {
                toml_table_added(text, "preprocessor"@)
            } else {
                Some(text)
            };
            &&& !f.slides_entry ==> installed_toml(text, f, css) == output_edits(
                match t1 {
                    Some(x) => toml_entry_added(
                        x,
                        "preprocessor"@,
                        "slides"@,
                        "command"@,
                        "mdbook-slides"@,
                    ),
                    None => None,
                },
                f,
                css,
            )
            &&& f.slides_entry ==> installed_toml(text, f, css) == output_edits(t1, f, css)
        }),
{
    reveal_strlit("mdbook-slides");
    assert(PREPROCESSOR_COMMAND@ == "mdbook-slides"@);
}

} // verus!
