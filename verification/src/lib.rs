//! An mdBook preprocessor that turns chapters marked `slides: true` in their
//! YAML frontmatter into self-contained slide decks.

pub mod text;
pub mod frontmatter;
pub mod slug;
pub mod markdown;
pub mod html_template;
pub mod install;


use vstd::prelude::*;
use crate::frontmatter::ParseResult;
use crate::html_template::{presentation, render_presentation};
use crate::text::{ascii_lower_char, ascii_lowercase, chars_of, find_chars, occurs_at};

verus! {

/// The preprocessor's identity towards mdBook.
pub struct SlidesPreprocessor;

/// Errors of the preprocessor's queries.
#[derive(Debug)]
pub enum PreprocessorError {
    /// A renderer name that cannot be read.
    UnreadableRenderer,
}

impl SlidesPreprocessor {
    /// The preprocessor's name, as written in `book.toml`.
    pub fn name(&self) -> (r: &'static str)
        ensures
            r@ == "slides"@,
    {
        "slides"
    }

    /// Only the HTML renderer is supported.
    pub fn supports_renderer(&self, renderer: &str) -> (r: Result<bool, PreprocessorError>)
        ensures
            r == Ok::<bool, PreprocessorError>(renderer@ == "html"@),
    {
        let given = chars_of(renderer);
        let html = chars_of("html");
        let mut same = given.len() == html.len();
        let mut i: usize = 0;
        while same && i < given.len()
            invariant
                given@ == renderer@,
                html@ == "html"@,
                same ==> given@.len() == html@.len(),
                i <= given@.len(),
                same ==> forall|k: int| 0 <= k < i ==> given@[k] == html@[k],
                !same ==> given@ != html@,
            decreases given@.len() - i,
        {
            if given[i] != html[i] {
                same = false;
            }
            i = i + 1;
        }
        if same {
            assert(given@ =~= html@);
        }
        Ok(same)
    }
}

/// The first 200 characters, ASCII-lowercased.
pub open spec fn head_of(content: Seq<char>) -> Seq<char> {
    ascii_lowercase(
        if content.len() <= 200 {
            content
        } else {
            content.take(200)
        },
    )
}

pub open spec fn mentions(s: Seq<char>, p: Seq<char>) -> bool {
    exists|i: int| occurs_at(s, i, p)
}

/// Whether the top of a chapter says `slides: true` (or `slides:true`)
/// without frontmatter having been found.
pub open spec fn looks_like_slides(content: Seq<char>) -> bool {
    mentions(head_of(content), "slides: true"@) || mentions(head_of(content), "slides:true"@)
}

/// Heuristic: does this chapter look like it tried to declare
/// `slides: true` frontmatter but had it mangled (for instance by mdBook's
/// markdown round-trip eating the closing `---`)? Only the first 200
/// characters are inspected, so prose further down does not trip it.
pub fn looks_like_mangled_slides_frontmatter(content: &str) -> (b: bool)
    ensures
        b == looks_like_slides(content@),
{
    let v = chars_of(content);
    let n: usize = if v.len() <= 200 {
        v.len()
    } else {
        200
    };
    let mut head: Vec<char> = Vec::new();
    let mut i: usize = 0;
    while i < n
        invariant
            n <= v@.len(),
            i <= n,
            head@ == ascii_lowercase(v@.take(i as int)),
        decreases n - i,
    {
        let c = v[i];
        let low = if 'A' <= c && c <= 'Z' {
            ((c as u8) + 32) as char
        } else {
            c
        };
        assert(low == ascii_lower_char(c));
        head.push(low);
        assert(v@.take(i + 1) == v@.take(i as int).push(c));
        assert(ascii_lowercase(v@.take(i + 1)) == ascii_lowercase(v@.take(i as int)).push(
            ascii_lower_char(c),
        ));
        i = i + 1;
    }
    assert(head@ == head_of(content@));
    let spaced = chars_of("slides: true");
    let tight = chars_of("slides:true");
    let a = find_chars(&head, 0, &spaced);
    let b = find_chars(&head, 0, &tight);
    a.is_some() || b.is_some()
}

/// What the preprocessor does with one chapter.
pub enum ChapterAction {
    /// Replace the chapter's content with this deck.
    Render(String),
    /// Leave the content, and warn that the chapter looks like a deck whose
    /// frontmatter was not found.
    WarnMangled,
    /// Leave the content.
    Keep,
}

/// Decides what happens to a chapter named `name` with content `content`,
/// given its parsed frontmatter: a `slides: true` chapter becomes the deck
/// rendered from the content after the frontmatter; any other chapter is
/// left unchanged, with a warning when it looks like a mangled deck.
pub fn chapter_action(name: &str, content: &str, parsed: &ParseResult) -> (a: ChapterAction)
    ensures
        parsed.config.slides ==> (a matches ChapterAction::Render(html) && html@ == presentation(
            parsed.content@,
            name@,
        )),
        !parsed.config.slides && looks_like_slides(content@) ==> a is WarnMangled,
        !parsed.config.slides && !looks_like_slides(content@) ==> a is Keep,
{
    if parsed.config.slides {
        ChapterAction::Render(render_presentation(parsed.content.as_str(), name))
    } else if looks_like_mangled_slides_frontmatter(content) {
        ChapterAction::WarnMangled
    } else {
        ChapterAction::Keep
    }
}

/// The first 200 characters (all of them when there are fewer).
pub open spec fn top_of(content: Seq<char>) -> Seq<char> {
    if content.len() <= 200 {
        content
    } else {
        content.take(200)
    }
}

/// Law: the heuristic reads only the first 200 characters; and once it
/// fires, more text after the content does not stop it.
pub proof fn law_heuristic_reads_only_the_top(content: Seq<char>, more: Seq<char>)
    ensures
        looks_like_slides(content) == looks_like_slides(top_of(content)),
        looks_like_slides(content) ==> looks_like_slides(content + more),
{
    assert(top_of(top_of(content)) == top_of(content));
    let h = head_of(content);
    let h2 = head_of(content + more);
    assert(top_of(content + more).len() >= top_of(content).len());
    assert forall|k: int| 0 <= k < h.len() implies h2[k] == h[k] by {
        assert(top_of(content + more)[k] == top_of(content)[k]);
    }
    assert forall|p: Seq<char>| mentions(h, p) implies mentions(h2, p) by {
        let i = choose|i: int| occurs_at(h, i, p);
        assert(h2.subrange(i, i + p.len()) == h.subrange(i, i + p.len()));
        assert(occurs_at(h2, i, p));
    }
}

} // verus!
