//! Slide splitting, speaker-note stripping, heading anchors and the HTML of
//! a whole presentation.

use vstd::prelude::*;
use crate::text::{
    matches_at, decimal_string, blank_range, chars_of, find_chars, find_from, find_line_end, is_blank, join_lines,
    line_end, line_text, lines_from, lines_of, push_char, push_range, string_of, trim,
    trim_bounds, trim_end, trim_end_from, trim_start, trim_start_from, lemma_line_end,
};

use crate::text::decimal;
use crate::markdown::{first_heading_of, slide_events, slide_markup};
use crate::slug::{slug_of, unique_id_of};

pub use crate::markdown::{render_markdown, render_markdown_with_heading, FirstHeading};
pub use crate::slug::{id_from_content, unique_id, UsedIds};

verus! {

// ---------------------------------------------------------------------
// Splitting a deck into slides
// ---------------------------------------------------------------------

/// A slide separator line: `---` followed only by spaces and tabs.
pub open spec fn is_separator(line: Seq<char>) -> bool {
    &&& line.len() >= 3
    &&& line[0] == '-' && line[1] == '-' && line[2] == '-'
    &&& forall|k: int| 3 <= k < line.len() ==> (line[k] == ' ' || line[k] == '\t')
}

/// The slide a piece of text between separators makes: its trimmed text,
/// or nothing when that is empty.
pub open spec fn keep_slide(piece: Seq<char>) -> Seq<Seq<char>> {
    if trim(piece).len() > 0 {
        seq![trim(piece)]
    } else {
        Seq::empty()
    }
}

/// The slides of `s` from the line that starts at `ls` on, where the
/// current piece started at `ps`. A separator line ends the current piece
/// (just before the line) and starts the next one (just after its text).
pub open spec fn slides_from(s: Seq<char>, ls: int, ps: int) -> Seq<Seq<char>>
    decreases s.len() + 1 - ls,
    via slides_from_decreases
{
    if ls < 0 || ls > s.len() {
        keep_slide(s.subrange(ps, s.len() as int))
    } else {
        let e = line_end(s, ls);
        if is_separator(s.subrange(ls, e)) {
            keep_slide(s.subrange(ps, ls)) + slides_from(s, e + 1, e)
        } else {
            slides_from(s, e + 1, ps)
        }
    }
}

#[via_fn]
proof fn slides_from_decreases(s: Seq<char>, ls: int, ps: int) {
    if 0 <= ls <= s.len() {
        lemma_line_end(s, ls);
    }
}

/// The slides of a deck: the text between lines that match `^---[ \t]*$`,
/// each trimmed, empty ones dropped.
pub open spec fn slides_of(markdown: Seq<char>) -> Seq<Seq<char>> {
    slides_from(markdown, 0, 0)
}

pub open spec fn strings_view(v: Seq<String>) -> Seq<Seq<char>> {
    v.map_values(|s: String| s@)
}

fn is_separator_range(v: &Vec<char>, lo: usize, hi: usize) -> (b: bool)
    requires
        lo <= hi <= v@.len(),
    ensures
        b == is_separator(v@.subrange(lo as int, hi as int)),
{
    let ghost line = v@.subrange(lo as int, hi as int);
    if hi - lo < 3 || v[lo] != '-' || v[lo + 1] != '-' || v[lo + 2] != '-' {
        return false;
    }
    let mut k = lo + 3;
    while k < hi
        invariant
            lo + 3 <= k <= hi <= v@.len(),
            line == v@.subrange(lo as int, hi as int),
            forall|j: int| 3 <= j < k - lo ==> (line[j] == ' ' || line[j] == '\t'),
        decreases hi - k,
    {
        if v[k] != ' ' && v[k] != '\t' {
            assert(line[k - lo] == v@[k as int]);
            return false;
        }
        k = k + 1;
    }
    true
}

/// Appends the slide that `v[lo..hi]` makes, if any.
fn push_slide(out: &mut Vec<String>, v: &Vec<char>, lo: usize, hi: usize)
    requires
        lo <= hi <= v@.len(),
    ensures
        strings_view(final(out)@) == strings_view(old(out)@) + keep_slide(
            v@.subrange(lo as int, hi as int),
        ),
{
    let (a, b) = trim_bounds(v, lo, hi);
    if a < b {
        let s = string_of(v, a, b);
        let ghost before = out@;
        out.push(s);
        assert(strings_view(out@) == strings_view(before).push(s@));
    } else {
        assert(keep_slide(v@.subrange(lo as int, hi as int)) == Seq::<Seq<char>>::empty());
        assert(strings_view(out@) + Seq::<Seq<char>>::empty() == strings_view(out@));
    }
}

/// Splits a deck on `---` separator lines (a line that is `---` followed
/// only by spaces or tabs); each slide is trimmed and empty ones dropped.
pub fn split_slides(markdown: &str) -> (slides: Vec<String>)
    ensures
        strings_view(slides@) == slides_of(markdown@),
{
    let v = chars_of(markdown);
    let mut out: Vec<String> = Vec::new();
    let mut ls: usize = 0;
    let mut ps: usize = 0;
    loop
        invariant
            v@ == markdown@,
            ps <= ls <= v@.len(),
            slides_of(v@) == strings_view(out@) + slides_from(v@, ls as int, ps as int),
        decreases v@.len() - ls,
    {
        let e = find_line_end(&v, ls);
        proof {
            lemma_line_end(v@, ls as int);
        }
        if is_separator_range(&v, ls, e) {
            push_slide(&mut out, &v, ps, ls);
            assert(slides_of(v@) == strings_view(out@) + slides_from(v@, e + 1, e as int));
            ps = e;
        } else {
            assert(slides_from(v@, ls as int, ps as int) == slides_from(v@, e + 1, ps as int));
        }
        assert(slides_of(v@) == strings_view(out@) + slides_from(v@, e + 1, ps as int));
        if e == v.len() {
            assert(slides_from(v@, e + 1, ps as int) == keep_slide(
                v@.subrange(ps as int, v@.len() as int),
            ));
            push_slide(&mut out, &v, ps, v.len());
            assert(strings_view(out@) == slides_of(v@));
            return out;
        }
        ls = e + 1;
    }
}

// ---------------------------------------------------------------------
// Speaker notes
// ---------------------------------------------------------------------

/// A line of `slide` starts at `p` and begins with `Note:` or `Notes:`.
pub open spec fn notes_line_at(slide: Seq<char>, p: int) -> bool {
    &&& 0 <= p <= slide.len()
    &&& p == 0 || slide[p - 1] == '\n'
    &&& crate::text::occurs_at(slide, p, "Note:"@) || crate::text::occurs_at(slide, p, "Notes:"@)
}

/// `p` starts the first notes line of `slide`.
pub open spec fn first_notes_line_is(slide: Seq<char>, p: int) -> bool {
    notes_line_at(slide, p) && forall|q: int| 0 <= q < p ==> !notes_line_at(slide, q)
}

/// A slide without its speaker notes: everything from the first line that
/// begins with `Note:` or `Notes:` on is cut, then trailing white space; a
/// slide with no such line stays whole.
pub open spec fn without_notes(slide: Seq<char>) -> Seq<char> {
    if exists|p: int| notes_line_at(slide, p) {
        trim_end(slide.subrange(0, choose|p: int| first_notes_line_is(slide, p)))
    } else {
        slide
    }
}

/// Strips speaker notes: everything from a line starting with `Note:` or
/// `Notes:` on.
pub fn strip_notes(slide: &str) -> (r: &str)
    ensures
        r@ == without_notes(slide@),
{
    let v = chars_of(slide);
    let note = chars_of("Note:");
    let notes = chars_of("Notes:");
    let mut p: usize = 0;
    while p < v.len()
        invariant
            v@ == slide@,
            note@ == "Note:"@,
            notes@ == "Notes:"@,
            p <= v@.len(),
            forall|q: int| 0 <= q < p ==> !notes_line_at(v@, q),
        decreases v@.len() - p,
    {
        if (p == 0 || v[p - 1] == '\n') && (matches_at(&v, p, &note) || matches_at(&v, p, &notes)) {
            proof {
                assert(first_notes_line_is(v@, p as int));
                let c = choose|c: int| first_notes_line_is(v@, c);
                assert(first_notes_line_is(v@, c));
                if c < p {
                    assert(!notes_line_at(v@, c));
                } else if p < c {
                    assert(!notes_line_at(v@, p as int));
                }
            }
            let b = trim_end_from(&v, 0, p);
            return slide.substring_char(0, b);
        }
        p = p + 1;
    }
    proof {
        reveal_strlit("Note:");
        reveal_strlit("Notes:");
        assert forall|q: int| !notes_line_at(v@, q) by {
            if q >= p && notes_line_at(v@, q) {
                assert(q + 5 <= v@.len());
            }
        }
    }
    slide
}

// ---------------------------------------------------------------------
// Heading anchors
// ---------------------------------------------------------------------

/// `s[k..k+4]` is an opening heading tag `<hN>` with `N` from 1 to 6.
pub open spec fn heading_open_at(s: Seq<char>, k: int) -> bool {
    &&& 0 <= k && k + 4 <= s.len()
    &&& s[k] == '<' && s[k + 1] == 'h' && s[k + 3] == '>'
    &&& '1' <= s[k + 2] && s[k + 2] <= '6'
}

/// The number of leading white-space characters.
pub open spec fn leading_space(s: Seq<char>) -> int {
    s.len() - trim_start(s).len()
}

/// mdBook's anchored heading shape around `inner`:
/// `<hN id="ID"><a class="header" href="#ID">INNER</a></hN>`.
pub open spec fn anchored_heading(d: char, id: Seq<char>, inner: Seq<char>) -> Seq<char> {
    seq!['<', 'h', d] + " id=\""@ + id + "\"><a class=\"header\" href=\"#"@ + id + "\">"@ + inner
        + "</a></h"@ + seq![d, '>']
}

/// If `html` opens (after white space) with `<hN>` and the matching
/// `</hN>` follows, that heading in mdBook's anchored shape followed by the
/// rest; otherwise `html` unchanged. The leading white space is dropped.
pub open spec fn anchorized(html: Seq<char>, id: Seq<char>) -> Seq<char> {
    let k = leading_space(html);
    if !heading_open_at(html, k) {
        html
    } else {
        let d = html[k + 2];
        match find_from(html, seq!['<', '/', 'h', d, '>'], k + 4) {
            None => html,
            Some(j) => anchored_heading(d, id, html.subrange(k + 4, j)) + html.subrange(
                j + 5,
                html.len() as int,
            ),
        }
    }
}

/// If `html` opens with an `<hN>...</hN>` heading, injects mdBook's final
/// heading shape so mdBook's table of contents lists it; inner markup is
/// kept as is. Returns the input unchanged when there is no leading heading.
pub fn anchorize_first_heading(html: &str, slug: &str) -> (r: String)
    ensures
        r@ == anchorized(html@, slug@),
{
    let v = chars_of(html);
    let k = trim_start_from(&v, 0, v.len());
    proof {
        assert(v@.subrange(0, v@.len() as int) == v@);
        crate::text::lemma_trim_start_shape(v@);
        assert(leading_space(html@) == k);
    }
    if k > v.len() || v.len() - k < 4 || v[k] != '<' || v[k + 1] != 'h' || v[k + 3] != '>'
        || v[k + 2] < '1' || v[k + 2] > '6' {
        return String::from_str(html);
    }
    let d = v[k + 2];
    let close: Vec<char> = vec!['<', '/', 'h', d, '>'];
    assert(close@ == seq!['<', '/', 'h', d, '>']);
    match find_chars(&v, k + 4, &close) {
        None => String::from_str(html),
        Some(j) => {
            let mut out = String::new();
            out.append("<h");
            push_char(&mut out, d);
            out.append(" id=\"");
            out.append(slug);
            out.append("\"><a class=\"header\" href=\"#");
            out.append(slug);
            out.append("\">");
            push_range(&mut out, &v, k + 4, j);
            out.append("</a></h");
            push_char(&mut out, d);
            push_char(&mut out, '>');
            push_range(&mut out, &v, j + 5, v.len());
            proof {
                reveal_strlit("<h");
                assert(out@ == anchored_heading(d, slug@, v@.subrange(k + 4, j as int))
                    + v@.subrange(j + 5, v@.len() as int));
            }
            out
        },
    }
}

// ---------------------------------------------------------------------
// Keeping a slide's HTML inside one HTML block
// ---------------------------------------------------------------------

/// The placeholder that stands for a blank line.
pub open spec fn unblank(line: Seq<char>) -> Seq<char> {
    if is_blank(line) {
        "<!-- -->"@
    } else {
        line
    }
}

/// The lines of `html` joined with `'\n'`, each blank one replaced by an
/// HTML comment.
pub open spec fn without_blank_lines(html: Seq<char>) -> Seq<char> {
    join_lines(lines_of(html).map_values(|l: Seq<char>| unblank(l)))
}

/// Replaces blank lines with HTML comments, so that CommonMark does not end
/// the HTML block that the outer `<div>` starts.
pub fn prevent_blank_lines(html: &str) -> (r: String)
    ensures
        r@ == without_blank_lines(html@),
{
    let v = chars_of(html);
    let mut out = String::new();
    let mut i: usize = 0;
    let ghost mut done: Seq<Seq<char>> = Seq::empty();
    let mut first = true;
    if v.len() == 0 {
        assert(lines_of(html@) == Seq::<Seq<char>>::empty());
        assert(lines_of(html@).map_values(|l: Seq<char>| unblank(l)) =~= Seq::<Seq<char>>::empty());
        return out;
    }
    loop
        invariant
            v@ == html@,
            i < v@.len(),
            first == (done.len() == 0),
            lines_of(v@) == done + lines_from(v@, i as int),
            out@ == join_lines(done.map_values(|l: Seq<char>| unblank(l))),
        decreases v@.len() - i,
    {
        let e = find_line_end(&v, i);
        proof {
            lemma_line_end(v@, i as int);
        }
        let ce = if e < v.len() && e > i && v[e - 1] == '\r' {
            e - 1
        } else {
            e
        };
        let ghost line = line_text(v@, i as int, e as int);
        assert(line == v@.subrange(i as int, ce as int));
        let ghost prev = done.map_values(|l: Seq<char>| unblank(l));
        if !first {
            push_char(&mut out, '\n');
        }
        first = false;
        if blank_range(&v, i, ce) {
            out.append("<!-- -->");
        } else {
            push_range(&mut out, &v, i, ce);
        }
        proof {
            let next = done.push(line);
            assert(next.map_values(|l: Seq<char>| unblank(l)) == prev.push(unblank(line)));
            assert(prev.push(unblank(line)).drop_last() == prev);
            if done.len() == 0 {
                assert(prev == Seq::<Seq<char>>::empty());
            }
            assert(lines_from(v@, i as int) == seq![line] + lines_from(v@, e + 1));
            assert(done + lines_from(v@, i as int) == next + lines_from(v@, e + 1));
            done = next;
        }
        if e == v.len() || e + 1 == v.len() {
            assert(lines_from(v@, e + 1) == Seq::<Seq<char>>::empty());
            assert(done + Seq::<Seq<char>>::empty() == done);
            return out;
        }
        i = e + 1;
    }
}

// ---------------------------------------------------------------------
// The presentation
// ---------------------------------------------------------------------

/// What one slide becomes, given the ids already in use: its HTML, the ids
/// in use afterwards, and the id given to its heading, if any. The first
/// heading of the slide's markdown is anchored when its level is 2 to 6;
/// its id is mdBook's id of the heading text, made unique in the deck.
pub open spec fn render_slide(slide: Seq<char>, used: Set<Seq<char>>) -> (
    Seq<char>,
    Set<Seq<char>>,
    Option<Seq<char>>,
) {
    let content = without_notes(slide);
    let html = slide_markup(content);
    match first_heading_of(slide_events(content)) {
        Some((level, text)) => if level >= 2 {
            let id = unique_id_of(slug_of(text), used);
            (anchorized(html, id), used.insert(id), Some(id))
        } else {
            (html, used, None)
        },
        None => (html, used, None),
    }
}

/// The HTML of each slide, the ids in use after them all, and the ids given
/// out, in slide order.
pub open spec fn render_slides(slides: Seq<Seq<char>>) -> (
    Seq<Seq<char>>,
    Set<Seq<char>>,
    Seq<Seq<char>>,
)
    decreases slides.len(),
{
    if slides.len() == 0 {
        (Seq::empty(), Set::empty(), Seq::empty())
    } else {
        let (htmls, used, ids) = render_slides(slides.drop_last());
        let (html, used2, id) = render_slide(slides.last(), used);
        (
            htmls.push(html),
            used2,
            match id {
                Some(x) => ids.push(x),
                None => ids,
            },
        )
    }
}

/// A chapter name as HTML text: `&`, `<`, `>`, `"` and line feeds become
/// character references.
pub open spec fn escaped_char(c: char) -> Seq<char> {
    if c == '&' {
        "&amp;"@
    } else if c == '<' {
        "&lt;"@
    } else if c == '>' {
        "&gt;"@
    } else if c == '"' {
        "&quot;"@
    } else if c == '\n' {
        "&#10;"@
    } else {
        seq![c]
    }
}

pub open spec fn escape_text(s: Seq<char>) -> Seq<char>
    decreases s.len(),
{
    if s.len() == 0 {
        Seq::empty()
    } else {
        escape_text(s.drop_last()) + escaped_char(s.last())
    }
}

/// Escapes a text for HTML.
pub fn escape_html(text: &str) -> (r: String)
    ensures
        r@ == escape_text(text@),
{
    let v = chars_of(text);
    let mut out = String::new();
    let mut i: usize = 0;
    while i < v.len()
        invariant
            v@ == text@,
            i <= v@.len(),
            out@ == escape_text(v@.take(i as int)),
        decreases v@.len() - i,
    {
        let c = v[i];
        if c == '&' {
            out.append("&amp;");
        } else if c == '<' {
            out.append("&lt;");
        } else if c == '>' {
            out.append("&gt;");
        } else if c == '"' {
            out.append("&quot;");
        } else if c == '\n' {
            out.append("&#10;");
        } else {
            push_char(&mut out, c);
        }
        assert(v@.take(i + 1).drop_last() == v@.take(i as int));
        i = i + 1;
    }
    assert(v@.take(v@.len() as int) == v@);
    out
}

/// The `<div>` of slide `i`: the first is the active one.
pub open spec fn slide_div(i: int, html: Seq<char>) -> Seq<char> {
    (if i == 0 {
        "<div class=\"slide active\">\n"@
    } else {
        "<div class=\"slide\">\n"@
    }) + without_blank_lines(html) + "</div>\n"@
}

pub open spec fn slide_divs(htmls: Seq<Seq<char>>) -> Seq<char>
    decreases htmls.len(),
{
    if htmls.len() == 0 {
        Seq::empty()
    } else {
        slide_divs(htmls.drop_last()) + slide_div(htmls.len() - 1, htmls.last())
    }
}

/// The slides container: one HTML block with no blank line in it.
pub open spec fn deck_block(htmls: Seq<Seq<char>>, chapter_name: Seq<char>) -> Seq<char> {
    "<div class=\"slides-container\">\n"@ + slide_divs(htmls)
        + "<div class=\"slides-zone prev\"></div>\n"@
        + "<div class=\"slides-zone next\"></div>\n"@
        + "<div class=\"slides-chapter\"><span>"@ + escape_text(chapter_name)
        + "</span></div>\n"@
        + "<div class=\"slides-nav\"><span class=\"slides-progress\">1 / "@ + decimal(
        htmls.len(),
    ) + "</span></div>\n"@ + "</div>\n"@
}

/// The whole chapter: the container, then a blank line, then the script.
pub open spec fn presentation(markdown: Seq<char>, chapter_name: Seq<char>) -> Seq<char> {
    deck_block(render_slides(slides_of(markdown)).0, chapter_name) + "\n<script>\n"@
        + SLIDESHOW_JS@ + "\n</script>"@
}

/// Generates the full HTML for a presentation chapter: each slide in its own
/// `<div>`, the first one active, each slide's first h2-h6 heading anchored
/// with an id unique in the deck, navigation zones, the chapter name and a
/// progress label, then the slideshow script.
pub fn render_presentation(markdown: &str, chapter_name: &str) -> (html: String)
    ensures
        html@ == presentation(markdown@, chapter_name@),
{
    let slides = split_slides(markdown);
    let ghost deck = strings_view(slides@);
    let mut used = UsedIds::new();
    let mut htmls: Vec<String> = Vec::new();
    let ghost mut ids: Seq<Seq<char>> = Seq::empty();
    let mut i: usize = 0;
    assert(deck.take(0) == Seq::<Seq<char>>::empty());
    while i < slides.len()
        invariant
            deck == strings_view(slides@),
            deck == slides_of(markdown@),
            i <= slides@.len(),
            render_slides(deck.take(i as int)) == (strings_view(htmls@), used.view(), ids),
        decreases slides@.len() - i,
    {
        let ghost used0 = used.view();
        let content = strip_notes(slides[i].as_str());
        let (html, heading) = render_markdown_with_heading(content);
        let ghost id: Option<Seq<char>> = None;
        let html = match heading {
            Some(h) => {
                if h.level >= 2 {
                    let slug = id_from_content(h.text.as_str());
                    let unique = unique_id(slug.as_str(), &mut used);
                    proof {
                        id = Some(unique@);
                    }
                    anchorize_first_heading(html.as_str(), unique.as_str())
                } else {
                    html
                }
            },
            None => html,
        };
        assert(deck.take(i + 1).drop_last() == deck.take(i as int));
        assert(deck.take(i + 1).last() == deck[i as int]);
        assert(render_slide(deck[i as int], used0) == (html@, used.view(), id));
        let ghost before = htmls@;
        htmls.push(html);
        assert(strings_view(htmls@) == strings_view(before).push(html@));
        proof {
            match id {
                Some(x) => {
                    ids = ids.push(x);
                },
                None => {},
            }
        }
        i = i + 1;
    }
    assert(deck.take(i as int) == deck);
    let ghost hv = strings_view(htmls@);
    let mut out = String::new();
    out.append("<div class=\"slides-container\">\n");
    let mut j: usize = 0;
    while j < htmls.len()
        invariant
            hv == strings_view(htmls@),
            j <= htmls@.len(),
            out@ == "<div class=\"slides-container\">\n"@ + slide_divs(hv.take(j as int)),
        decreases htmls@.len() - j,
    {
        let ghost before = out@;
        if j == 0 {
            out.append("<div class=\"slide active\">\n");
        } else {
            out.append("<div class=\"slide\">\n");
        }
        let body = prevent_blank_lines(htmls[j].as_str());
        out.append(body.as_str());
        out.append("</div>\n");
        assert(hv.take(j + 1).drop_last() == hv.take(j as int));
        assert(hv.take(j + 1).last() == hv[j as int]);
        assert(out@ == before + slide_div(j as int, hv[j as int]));
        j = j + 1;
    }
    assert(hv.take(j as int) == hv);
    out.append("<div class=\"slides-zone prev\"></div>\n");
    out.append("<div class=\"slides-zone next\"></div>\n");
    out.append("<div class=\"slides-chapter\"><span>");
    let name = escape_html(chapter_name);
    out.append(name.as_str());
    out.append("</span></div>\n");
    out.append("<div class=\"slides-nav\"><span class=\"slides-progress\">1 / ");
    let total = decimal_string(htmls.len() as u64);
    out.append(total.as_str());
    out.append("</span></div>\n");
    out.append("</div>\n");
    out.append("\n<script>\n");
    out.append(SLIDESHOW_JS);
    out.append("\n</script>");
    out
}

} // verus!

verus! {

/// The slideshow script: arrow keys and the navigation zones move between
/// slides and on to the neighbouring chapters; the active slide is mirrored
/// into the URL as `#slide-N`, and a `#slide-N` or heading-id hash on load
/// or on change shows the slide it names.
pub const SLIDESHOW_JS: &'static str = r#"document.addEventListener('DOMContentLoaded', function() {
  var container = document.querySelector('.slides-container');
  var slides = container.querySelectorAll('.slide');
  var progress = container.querySelector('.slides-progress');
  var current = 0;

  // Save chapter nav URLs (absolute via .href) then remove the elements
  var nextUrl = null, prevUrl = null;
  var ne = document.querySelector('.nav-chapters.next');
  var pe = document.querySelector('.nav-chapters.previous');
  if (ne) nextUrl = ne.href;
  if (pe) prevUrl = pe.href;
  document.querySelectorAll('.nav-chapters').forEach(function(el) { el.remove(); });

  // Expand content area
  var m = document.querySelector('#content main') || document.querySelector('main');
  if (m) { m.style.padding = '0'; m.style.maxWidth = 'none'; }

  function show(n) {
    slides[current].classList.remove('active');
    current = n;
    slides[current].classList.add('active');
    progress.textContent = (current + 1) + ' / ' + slides.length;
    // Mirror the active slide into the URL so decks are deep-linkable.
    // replaceState avoids history spam and the scroll jump a bare hash set
    // would cause (there is no element with id="slide-N").
    history.replaceState(null, '', '#slide-' + (current + 1));
  }

  function forward() {
    if (current < slides.length - 1) { show(current + 1); return true; }
    if (nextUrl) window.location.href = nextUrl;
    return false;
  }

  function backward() {
    if (current > 0) { show(current - 1); return true; }
    if (prevUrl) window.location.href = prevUrl;
    return false;
  }

  // Choose the starting slide: an explicit #slide-N in the URL wins (deep
  // link / reload); a heading-slug like #features (e.g. clicked in mdBook's
  // right-hand "On This Page" TOC) reveals the slide containing that heading;
  // otherwise, if navigating backward from the next chapter, start at the last
  // slide.
  var referrer = document.referrer.replace(/#.*/, '');
  var hashMatch = /^#slide-(\d+)$/.exec(location.hash);
  if (hashMatch) {
    var idx = Math.min(Math.max(parseInt(hashMatch[1], 10), 1), slides.length) - 1;
    if (idx !== 0) show(idx);
  } else if (location.hash) {
    // A TOC deep link: locate the heading by id and reveal the slide it lives in.
    var heading = document.getElementById(location.hash.slice(1));
    if (heading) {
      var slideEl = heading.closest('.slide');
      if (slideEl) {
        var idx = Array.prototype.indexOf.call(slides, slideEl);
        if (idx >= 0 && idx !== current) show(idx);
      }
    }
  } else if (nextUrl && referrer === nextUrl.replace(/#.*/, '')) {
    show(slides.length - 1);
  }

  // Clicking a right-hand "On This Page" TOC entry changes the URL hash to the
  // heading's slug mid-session; reveal the slide containing that heading. The
  // existing #slide-N form (set by show() via replaceState, which fires no
  // hashchange) is handled first.
  window.addEventListener('hashchange', function() {
    var hash = location.hash;
    var m = /^#slide-(\d+)$/.exec(hash);
    if (m) {
      var idx = Math.min(Math.max(parseInt(m[1], 10), 1), slides.length) - 1;
      if (idx !== current) show(idx);
      return;
    }
    if (hash) {
      var heading = document.getElementById(hash.slice(1));
      if (heading) {
        var slideEl = heading.closest('.slide');
        if (slideEl) {
          var idx = Array.prototype.indexOf.call(slides, slideEl);
          if (idx >= 0 && idx !== current) show(idx);
        }
      }
    }
  });

  // Clicking the left or right edge of the deck moves one slide.
  var zonePrev = container.querySelector('.slides-zone.prev');
  var zoneNext = container.querySelector('.slides-zone.next');
  if (zonePrev) zonePrev.addEventListener('click', function() { backward(); });
  if (zoneNext) zoneNext.addEventListener('click', function() { forward(); });

  document.addEventListener('keydown', function(e) {
    if (e.key === 'ArrowRight' || e.key === 'ArrowDown' || e.key === ' ') {
      if (forward()) e.preventDefault();
    } else if (e.key === 'ArrowLeft' || e.key === 'ArrowUp') {
      if (backward()) e.preventDefault();
    }
  });
});"#;

} // verus!

verus! {

// ---------------------------------------------------------------------
// Law: the slides container holds no blank line
// ---------------------------------------------------------------------

pub open spec fn no_newline(s: Seq<char>) -> bool {
    forall|k: int| 0 <= k < s.len() ==> s[k] != '\n'
}

proof fn lemma_no_newline_concat(a: Seq<char>, b: Seq<char>)
    requires
        no_newline(a),
        no_newline(b),
    ensures
        no_newline(a + b),
{
    assert forall|k: int| 0 <= k < (a + b).len() implies (a + b)[k] != '\n' by {
        if k < a.len() {
            assert((a + b)[k] == a[k]);
        } else {
            assert((a + b)[k] == b[k - a.len()]);
        }
    }
}

/// A line: text without line feeds that does not start with white space,
/// then a line feed.
proof fn lemma_line(x: Seq<char>)
    requires
        x.len() > 0,
        !crate::text::white_space(x[0]),
        no_newline(x),
    ensures
        crate::text::no_blank_segment(x + seq!['\n']),
        crate::text::ends_line(x + seq!['\n']),
{
    crate::text::lemma_not_blank_first(x);
    crate::text::lemma_no_blank_line(x);
}

/// A literal line: its last character is its only line feed.
proof fn lemma_literal_line(s: Seq<char>)
    requires
        s.len() >= 2,
        s.last() == '\n',
        !crate::text::white_space(s[0]),
        forall|k: int| 0 <= k < s.len() - 1 ==> s[k] != '\n',
    ensures
        crate::text::no_blank_segment(s),
        crate::text::ends_line(s),
{
    let x = s.drop_last();
    lemma_line(x);
    assert(x + seq!['\n'] == s);
}

proof fn lemma_lines_from_no_newline(s: Seq<char>, i: int)
    requires
        0 <= i,
    ensures
        forall|k: int| 0 <= k < lines_from(s, i).len() ==> no_newline(#[trigger] lines_from(s, i)[k]),
    decreases s.len() + 1 - i,
{
    if i < s.len() {
        let e = line_end(s, i);
        lemma_line_end(s, i);
        lemma_lines_from_no_newline(s, e + 1);
        let rest = lines_from(s, e + 1);
        let first = line_text(s, i, e);
        assert(no_newline(first)) by {
            assert forall|k: int| 0 <= k < first.len() implies first[k] != '\n' by {
                assert(first[k] == s[i + k]);
            }
        }
        assert(lines_from(s, i) == seq![first] + rest);
        assert forall|k: int| 0 <= k < lines_from(s, i).len() implies no_newline(
            #[trigger] lines_from(s, i)[k],
        ) by {
            if k > 0 {
                assert(lines_from(s, i)[k] == rest[k - 1]);
            }
        }
    }
}

/// A slide's HTML, blank lines replaced, then the closing `</div>` line.
proof fn lemma_slide_body(html: Seq<char>)
    ensures
        crate::text::no_blank_segment(without_blank_lines(html) + "</div>\n"@),
        crate::text::ends_line(without_blank_lines(html) + "</div>\n"@),
{
    reveal_strlit("</div>\n");
    reveal_strlit("</div>");
    reveal_strlit("<!-- -->");
    let ls = lines_of(html);
    let ms = ls.map_values(|l: Seq<char>| unblank(l));
    lemma_lines_from_no_newline(html, 0);
    let close = "</div>\n"@;
    if ms.len() == 0 {
        assert(without_blank_lines(html) + close == close);
        lemma_literal_line(close);
    } else {
        assert forall|i: int| 0 <= i < ms.len() implies !is_blank(#[trigger] ms[i]) by {
            if is_blank(ls[i]) {
                crate::text::lemma_not_blank_first("<!-- -->"@);
            }
        }
        assert forall|i: int, k: int| 0 <= i < ms.len() && 0 <= k < ms[i].len() implies #[trigger] ms[i][k]
            != '\n' by {
            assert(no_newline(ls[i]));
        }
        crate::text::lemma_no_blank_join(ms, "</div>"@);
        assert(close == "</div>"@ + seq!['\n']);
        assert(without_blank_lines(html) + close == join_lines(ms) + "</div>"@ + seq!['\n']);
    }
}

proof fn lemma_slide_div(i: int, html: Seq<char>)
    ensures
        crate::text::no_blank_segment(slide_div(i, html)),
        crate::text::ends_line(slide_div(i, html)),
{
    reveal_strlit("<div class=\"slide active\">\n");
    reveal_strlit("<div class=\"slide\">\n");
    let open = if i == 0 {
        "<div class=\"slide active\">\n"@
    } else {
        "<div class=\"slide\">\n"@
    };
    lemma_literal_line(open);
    lemma_slide_body(html);
    crate::text::lemma_no_blank_concat(open, without_blank_lines(html) + "</div>\n"@);
    assert(slide_div(i, html) == open + (without_blank_lines(html) + "</div>\n"@));
}

proof fn lemma_slide_divs(htmls: Seq<Seq<char>>)
    ensures
        crate::text::no_blank_segment(slide_divs(htmls)),
        crate::text::ends_line(slide_divs(htmls)),
    decreases htmls.len(),
{
    if htmls.len() > 0 {
        lemma_slide_divs(htmls.drop_last());
        lemma_slide_div(htmls.len() - 1, htmls.last());
        crate::text::lemma_no_blank_concat(
            slide_divs(htmls.drop_last()),
            slide_div(htmls.len() - 1, htmls.last()),
        );
    } else {
        assert forall|i: int| #[trigger] crate::text::line_start(slide_divs(htmls), i) implies !is_blank(
            slide_divs(htmls).subrange(i, line_end(slide_divs(htmls), i)),
        ) by {}
    }
}

proof fn lemma_escape_no_newline(s: Seq<char>)
    ensures
        no_newline(escape_text(s)),
    decreases s.len(),
{
    if s.len() > 0 {
        lemma_escape_no_newline(s.drop_last());
        reveal_strlit("&amp;");
        reveal_strlit("&lt;");
        reveal_strlit("&gt;");
        reveal_strlit("&quot;");
        reveal_strlit("&#10;");
        let c = s.last();
        assert(no_newline(escaped_char(c)));
        lemma_no_newline_concat(escape_text(s.drop_last()), escaped_char(c));
    }
}

proof fn lemma_decimal_no_newline(n: nat)
    ensures
        no_newline(decimal(n)),
    decreases n,
{
    if n >= 10 {
        lemma_decimal_no_newline(n / 10);
        let d = crate::text::digit_char(n % 10);
        assert((d as u32) == 48 + n % 10);
        lemma_no_newline_concat(decimal(n / 10), seq![d]);
        assert(decimal(n) == decimal(n / 10) + seq![d]);
    } else {
        let d = crate::text::digit_char(n);
        assert((d as u32) == 48 + n);
    }
}

/// Law: no line of the slides container is blank, so CommonMark reads the
/// whole container as one HTML block (a blank line would end it).
pub proof fn law_deck_block_has_no_blank_line(htmls: Seq<Seq<char>>, chapter_name: Seq<char>)
    ensures
        forall|k: int| 0 <= k < lines_of(deck_block(htmls, chapter_name)).len() ==> !is_blank(
            #[trigger] lines_of(deck_block(htmls, chapter_name))[k],
        ),
{
    let head = "<div class=\"slides-container\">\n"@;
    let prev = "<div class=\"slides-zone prev\"></div>\n"@;
    let next = "<div class=\"slides-zone next\"></div>\n"@;
    let label_open = "<div class=\"slides-chapter\"><span>"@;
    let label_close = "</span></div>\n"@;
    let nav_open = "<div class=\"slides-nav\"><span class=\"slides-progress\">1 / "@;
    let nav_close = "</span></div>\n"@;
    let tail = "</div>\n"@;
    reveal_strlit("<div class=\"slides-container\">\n");
    reveal_strlit("<div class=\"slides-zone prev\"></div>\n");
    reveal_strlit("<div class=\"slides-zone next\"></div>\n");
    reveal_strlit("<div class=\"slides-chapter\"><span>");
    reveal_strlit("</span></div>\n");
    reveal_strlit("<div class=\"slides-nav\"><span class=\"slides-progress\">1 / ");
    reveal_strlit("</div>\n");
    lemma_literal_line(head);
    lemma_literal_line(prev);
    lemma_literal_line(next);
    lemma_literal_line(tail);
    lemma_slide_divs(htmls);

    let esc = escape_text(chapter_name);
    lemma_escape_no_newline(chapter_name);
    let label_text = label_open + esc + label_close.drop_last();
    assert(no_newline(label_open));
    assert(no_newline(label_close.drop_last()));
    lemma_no_newline_concat(label_open, esc);
    lemma_no_newline_concat(label_open + esc, label_close.drop_last());
    assert(label_text[0] == '<');
    lemma_line(label_text);
    let label = label_open + esc + label_close;
    assert(label == label_text + seq!['\n']);

    let digits = decimal(htmls.len());
    lemma_decimal_no_newline(htmls.len());
    let nav_text = nav_open + digits + nav_close.drop_last();
    assert(no_newline(nav_open));
    lemma_no_newline_concat(nav_open, digits);
    lemma_no_newline_concat(nav_open + digits, nav_close.drop_last());
    assert(nav_text[0] == '<');
    lemma_line(nav_text);
    let nav = nav_open + digits + nav_close;
    assert(nav == nav_text + seq!['\n']);

    let divs = slide_divs(htmls);
    crate::text::lemma_no_blank_concat(head, divs);
    crate::text::lemma_no_blank_concat(head + divs, prev);
    crate::text::lemma_no_blank_concat(head + divs + prev, next);
    crate::text::lemma_no_blank_concat(head + divs + prev + next, label);
    crate::text::lemma_no_blank_concat(head + divs + prev + next + label, nav);
    crate::text::lemma_no_blank_concat(head + divs + prev + next + label + nav, tail);
    assert(deck_block(htmls, chapter_name) == head + divs + prev + next + label + nav + tail);
    crate::text::lemma_lines_not_blank(deck_block(htmls, chapter_name));
}

} // verus!

verus! {

// ---------------------------------------------------------------------
// Law: one HTML text per slide, and the ids of a deck are all different
// ---------------------------------------------------------------------

/// Law: a deck renders one HTML text per slide; the ids given to its
/// headings are all different, and they are exactly the ids in use after
/// the deck (mdBook-style `x`, `x-1`, `x-2`, ... for repeated titles).
pub proof fn law_deck_ids_distinct(slides: Seq<Seq<char>>)
    ensures
        render_slides(slides).0.len() == slides.len(),
        render_slides(slides).1.finite(),
        render_slides(slides).2.no_duplicates(),
        render_slides(slides).2.to_set() == render_slides(slides).1,
    decreases slides.len(),
{
    if slides.len() == 0 {
        assert(Seq::<Seq<char>>::empty().to_set() =~= Set::<Seq<char>>::empty());
    } else {
        law_deck_ids_distinct(slides.drop_last());
        let (htmls, used, ids) = render_slides(slides.drop_last());
        let content = without_notes(slides.last());
        match first_heading_of(slide_events(content)) {
            Some((level, text)) => {
                if level >= 2 {
                    let id = unique_id_of(slug_of(text), used);
                    crate::slug::lemma_unique_id_is_free(slug_of(text), used);
                    assert(!ids.contains(id)) by {
                        if ids.contains(id) {
                            let i = choose|i: int| 0 <= i < ids.len() && ids[i] == id;
                            assert(ids.to_set().contains(ids[i]));
                        }
                    }
                    ids.lemma_push_to_set_commute(id);
                    assert forall|a: int, b: int| 0 <= a < b < ids.push(id).len() implies ids.push(
                        id,
                    )[a] != ids.push(id)[b] by {
                        if b == ids.len() {
                            assert(ids.push(id)[a] == ids[a]);
                        } else {
                            assert(ids.push(id)[a] == ids[a]);
                            assert(ids.push(id)[b] == ids[b]);
                        }
                    }
                }
            },
            None => {},
        }
    }
}

} // verus!

verus! {

// ---------------------------------------------------------------------
// Laws: slides are trimmed and never empty; notes do not survive
// ---------------------------------------------------------------------

/// Text that is non-empty and already trimmed.
pub open spec fn trimmed_nonempty(x: Seq<char>) -> bool {
    x.len() > 0 && trim(x) == x
}

proof fn lemma_keep_slide_trimmed(piece: Seq<char>)
    ensures
        forall|k: int| 0 <= k < keep_slide(piece).len() ==> trimmed_nonempty(
            #[trigger] keep_slide(piece)[k],
        ),
{
    crate::text::lemma_trim_idempotent(piece);
    if trim(piece).len() > 0 {
        assert(keep_slide(piece)[0] == trim(piece));
    }
}

proof fn lemma_slides_from_trimmed(s: Seq<char>, ls: int, ps: int)
    requires
        0 <= ps <= s.len(),
        ps <= ls || ls > s.len(),
    ensures
        forall|k: int| 0 <= k < slides_from(s, ls, ps).len() ==> trimmed_nonempty(
            #[trigger] slides_from(s, ls, ps)[k],
        ),
    decreases s.len() + 1 - ls,
{
    if ls < 0 || ls > s.len() {
        lemma_keep_slide_trimmed(s.subrange(ps, s.len() as int));
        assert(slides_from(s, ls, ps) == keep_slide(s.subrange(ps, s.len() as int)));
    } else {
        let e = line_end(s, ls);
        lemma_line_end(s, ls);
        if is_separator(s.subrange(ls, e)) {
            lemma_keep_slide_trimmed(s.subrange(ps, ls));
            lemma_slides_from_trimmed(s, e + 1, e);
            let first = keep_slide(s.subrange(ps, ls));
            let rest = slides_from(s, e + 1, e);
            assert(slides_from(s, ls, ps) == first + rest);
            assert forall|k: int| 0 <= k < slides_from(s, ls, ps).len() implies trimmed_nonempty(
                #[trigger] slides_from(s, ls, ps)[k],
            ) by {
                if k < first.len() {
                    assert(slides_from(s, ls, ps)[k] == first[k]);
                } else {
                    assert(slides_from(s, ls, ps)[k] == rest[k - first.len()]);
                }
            }
        } else {
            lemma_slides_from_trimmed(s, e + 1, ps);
            assert(slides_from(s, ls, ps) == slides_from(s, e + 1, ps));
        }
    }
}

/// Law: every slide is non-empty and already trimmed.
pub proof fn law_slides_are_trimmed(markdown: Seq<char>)
    ensures
        forall|k: int| 0 <= k < slides_of(markdown).len() ==> trimmed_nonempty(
            #[trigger] slides_of(markdown)[k],
        ),
{
    lemma_slides_from_trimmed(markdown, 0, 0);
}

/// No line of `s` that starts in `lo..hi` is a slide separator.
pub open spec fn no_separator_line_in(s: Seq<char>, lo: int, hi: int) -> bool {
    forall|k: int|
        lo <= k < hi && (k == lo || s[k - 1] == '\n') ==> !is_separator(
            #[trigger] s.subrange(k, line_end(s, k)),
        )
}

/// No line of `s` is a slide separator.
pub open spec fn no_separator_line(s: Seq<char>) -> bool {
    no_separator_line_in(s, 0, s.len() + 1 as int)
}

/// Lines that are not separators, up to a line start `m`, leave the slides
/// unchanged.
proof fn lemma_skip_lines(s: Seq<char>, ls: int, m: int, ps: int)
    requires
        0 <= ls < m <= s.len(),
        s[m - 1] == '\n',
        no_separator_line_in(s, ls, m),
    ensures
        slides_from(s, ls, ps) == slides_from(s, m, ps),
    decreases m - ls,
{
    lemma_line_end(s, ls);
    let e = line_end(s, ls);
    assert(e <= m - 1);
    assert(!is_separator(s.subrange(ls, e)));
    if e + 1 < m {
        assert forall|k: int|
            e + 1 <= k < m && (k == e + 1 || s[k - 1] == '\n') implies !is_separator(
            #[trigger] s.subrange(k, line_end(s, k)),
        ) by {
            assert(ls <= k < m);
        }
        lemma_skip_lines(s, e + 1, m, ps);
    }
}

/// With no separator from `ls` on, the rest of the text is one slide.
proof fn lemma_rest_is_one_piece(s: Seq<char>, ls: int, ps: int)
    requires
        0 <= ls <= s.len(),
        no_separator_line_in(s, ls, s.len() + 1 as int),
    ensures
        slides_from(s, ls, ps) == keep_slide(s.subrange(ps, s.len() as int)),
    decreases s.len() + 1 - ls,
{
    lemma_line_end(s, ls);
    let e = line_end(s, ls);
    assert(!is_separator(s.subrange(ls, e)));
    if e + 1 <= s.len() {
        assert forall|k: int|
            e + 1 <= k < s.len() + 1 && (k == e + 1 || s[k - 1] == '\n') implies !is_separator(
            #[trigger] s.subrange(k, line_end(s, k)),
        ) by {
            assert(ls <= k);
        }
        lemma_rest_is_one_piece(s, e + 1, ps);
    }
    assert(slides_from(s, ls, ps) == slides_from(s, e + 1, ps));
}

/// Law: joining two decks that hold no separator line with a separator line
/// between them gives the slides of the first followed by those of the
/// second.
pub proof fn law_split_at_separator(a: Seq<char>, b: Seq<char>)
    requires
        no_separator_line(a),
        no_separator_line(b),
    ensures
        slides_of(a + seq!['\n', '-', '-', '-', '\n'] + b) == slides_of(a) + slides_of(b),
{
    let sep = seq!['\n', '-', '-', '-', '\n'];
    let s = a + sep + b;
    let n = a.len() as int;
    // the lines of `a`
    assert forall|k: int| 0 <= k < n + 1 && (k == 0 || s[k - 1] == '\n') implies !is_separator(
        #[trigger] s.subrange(k, line_end(s, k)),
    ) by {
        crate::text::lemma_line_end_prefix(a, sep + b, k);
        lemma_line_end(a, k);
        assert(line_end(sep + b, 0) == 0);
        assert(s == a + (sep + b));
        if k > 0 {
            assert(s[k - 1] == a[k - 1]);
        }
        assert(s.subrange(k, line_end(s, k)) == a.subrange(k, line_end(a, k)));
    }
    lemma_skip_lines(s, 0, n + 1, 0);
    // the separator line
    assert(line_end(s, n + 4) == n + 4);
    assert(line_end(s, n + 3) == n + 4);
    assert(line_end(s, n + 2) == n + 4);
    assert(line_end(s, n + 1) == n + 4);
    assert(s.subrange(n + 1, n + 4) == seq!['-', '-', '-']);
    assert(is_separator(s.subrange(n + 1, n + 4)));
    assert(slides_from(s, n + 1, 0) == keep_slide(s.subrange(0, n + 1)) + slides_from(s, n + 5, n + 4));
    // the lines of `b`
    let p = a + sep;
    assert(s == p + b);
    assert forall|k: int|
        n + 5 <= k < s.len() + 1 && (k == n + 5 || s[k - 1] == '\n') implies !is_separator(
        #[trigger] s.subrange(k, line_end(s, k)),
    ) by {
        let j = k - (n + 5);
        crate::text::lemma_line_end_suffix(p, b, j);
        lemma_line_end(b, j);
        if j > 0 {
            assert(s[k - 1] == b[j - 1]);
        }
        assert(s.subrange(k, line_end(s, k)) == b.subrange(j, line_end(b, j)));
    }
    lemma_rest_is_one_piece(s, n + 5, n + 4);
    // each side alone
    lemma_rest_is_one_piece(a, 0, 0);
    lemma_rest_is_one_piece(b, 0, 0);
    assert(a.subrange(0, n) == a);
    assert(b.subrange(0, b.len() as int) == b);
    assert(s.subrange(0, n + 1) == a + seq!['\n']);
    assert(s.subrange(n + 4, s.len() as int) == seq!['\n'] + b);
    crate::text::lemma_trim_line_feed(a);
    crate::text::lemma_trim_line_feed(b);
}

/// Law: stripping notes keeps a prefix of the slide in which no line begins
/// with `Note:` or `Notes:`; when the slide has such a line, the result is
/// the text before the first one, without trailing white space; a slide with
/// no such line is kept whole.
pub proof fn law_notes_do_not_survive(slide: Seq<char>)
    ensures
        without_notes(slide).len() <= slide.len(),
        slide.subrange(0, without_notes(slide).len() as int) == without_notes(slide),
        forall|q: int| !notes_line_at(without_notes(slide), q),
        forall|p: int| first_notes_line_is(slide, p) ==> without_notes(slide) == trim_end(
            slide.subrange(0, p),
        ),
        (forall|p: int| !notes_line_at(slide, p)) ==> without_notes(slide) == slide,
{
    reveal_strlit("Note:");
    reveal_strlit("Notes:");
    if exists|p: int| notes_line_at(slide, p) {
        let w = choose|p: int| notes_line_at(slide, p);
        lemma_first_notes_line(slide, 0, w);
        let p = choose|p: int| first_notes_line_is(slide, p);
        assert(first_notes_line_is(slide, p));
        assert forall|p2: int| first_notes_line_is(slide, p2) implies p2 == p by {
            if p2 < p {
                assert(!notes_line_at(slide, p2));
            } else if p < p2 {
                assert(!notes_line_at(slide, p));
            }
        }
        let r = trim_end(slide.subrange(0, p));
        crate::text::lemma_trim_end_shape(slide.subrange(0, p));
        assert(slide.subrange(0, r.len() as int) == slide.subrange(0, p).subrange(0, r.len() as int));
        assert forall|q: int| !notes_line_at(r, q) by {
            if notes_line_at(r, q) {
                if q > 0 {
                    assert(r[q - 1] == slide[q - 1]);
                }
                if crate::text::occurs_at(r, q, "Note:"@) {
                    assert(r.subrange(q, q + 5) == slide.subrange(q, q + 5));
                }
                if crate::text::occurs_at(r, q, "Notes:"@) {
                    assert(r.subrange(q, q + 6) == slide.subrange(q, q + 6));
                }
                assert(notes_line_at(slide, q));
                assert(q < p);
            }
        }
    } else {
        assert(slide.subrange(0, slide.len() as int) == slide);
    }
}

proof fn lemma_first_notes_line(slide: Seq<char>, j: int, w: int)
    requires
        0 <= j <= w,
        notes_line_at(slide, w),
        forall|q: int| 0 <= q < j ==> !notes_line_at(slide, q),
    ensures
        exists|p: int| first_notes_line_is(slide, p),
    decreases w - j,
{
    if notes_line_at(slide, j) {
        assert(first_notes_line_is(slide, j));
    } else {
        lemma_first_notes_line(slide, j + 1, w);
    }
}

} // verus!

verus! {

/// The characters `N`, `o`, `t`, `e`, `:` (or `N`, `o`, `t`, `e`, `s`, `:`)
/// stand at `p`, at the start of a line of `s`.
pub open spec fn notes_marker_line(s: Seq<char>, p: int) -> bool {
    &&& 0 <= p && p + 5 <= s.len()
    &&& p == 0 || s[p - 1] == '\n'
    &&& s[p] == 'N' && s[p + 1] == 'o' && s[p + 2] == 't' && s[p + 3] == 'e'
    &&& (s[p + 4] == ':' || (p + 6 <= s.len() && s[p + 4] == 's' && s[p + 5] == ':'))
}

/// Law: the notes marker is exactly `Note:` or `Notes:`, case included, at
/// the start of a line. A slide with no line that begins so is kept whole;
/// otherwise it is cut before the first such line and its trailing white
/// space dropped.
pub proof fn law_notes_marker_is_exact(slide: Seq<char>)
    ensures
        (forall|p: int| !notes_marker_line(slide, p)) ==> without_notes(slide) == slide,
        forall|p: int|
            notes_marker_line(slide, p) && (forall|q: int| q < p ==> !notes_marker_line(slide, q))
                ==> without_notes(slide) == trim_end(slide.subrange(0, p)),
{
    reveal_strlit("Note:");
    reveal_strlit("Notes:");
    assert forall|p: int| notes_line_at(slide, p) <==> notes_marker_line(slide, p) by {
        if notes_line_at(slide, p) {
            if crate::text::occurs_at(slide, p, "Note:"@) {
                assert(slide.subrange(p, p + 5)[4] == slide[p + 4]);
                assert(slide.subrange(p, p + 5)[0] == slide[p]);
                assert(slide.subrange(p, p + 5)[1] == slide[p + 1]);
                assert(slide.subrange(p, p + 5)[2] == slide[p + 2]);
                assert(slide.subrange(p, p + 5)[3] == slide[p + 3]);
            } else {
                assert(slide.subrange(p, p + 6)[0] == slide[p]);
                assert(slide.subrange(p, p + 6)[1] == slide[p + 1]);
                assert(slide.subrange(p, p + 6)[2] == slide[p + 2]);
                assert(slide.subrange(p, p + 6)[3] == slide[p + 3]);
                assert(slide.subrange(p, p + 6)[4] == slide[p + 4]);
                assert(slide.subrange(p, p + 6)[5] == slide[p + 5]);
            }
        }
        if notes_marker_line(slide, p) {
            if slide[p + 4] == ':' {
                assert(slide.subrange(p, p + 5) =~= "Note:"@);
            } else {
                assert(slide.subrange(p, p + 6) =~= "Notes:"@);
            }
        }
    }
    law_notes_do_not_survive(slide);
    assert forall|p: int|
        notes_marker_line(slide, p) && (forall|q: int| q < p ==> !notes_marker_line(slide, q))
            implies without_notes(slide) == trim_end(slide.subrange(0, p)) by {
        assert(first_notes_line_is(slide, p));
    }
}

} // verus!

verus! {

/// The script that follows the slides container.
pub open spec fn deck_script() -> Seq<char> {
    "\n<script>\n"@ + SLIDESHOW_JS@ + "\n</script>"@
}

proof fn lemma_render_slides_at(slides: Seq<Seq<char>>, k: int)
    requires
        0 <= k < slides.len(),
    ensures
        render_slides(slides).0.len() == slides.len(),
        render_slides(slides).0[k] == render_slide(slides[k], render_slides(slides.take(k)).1).0,
    decreases slides.len(),
{
    let init = slides.drop_last();
    let (hs, used, ids) = render_slides(init);
    assert(render_slides(slides).0 == hs.push(render_slide(slides.last(), used).0));
    if init.len() > 0 {
        lemma_render_slides_at(init, 0);
    } else {
        assert(hs.len() == 0);
    }
    if k < slides.len() - 1 {
        lemma_render_slides_at(init, k);
        assert(init.take(k) == slides.take(k));
        assert(init[k] == slides[k]);
    } else {
        assert(slides.take(k) == init);
    }
}

/// Law: in the deck, a slide whose first heading has level 2 to 6 gets that
/// heading in mdBook's anchored shape, with an id made of mdBook's id of the
/// heading text, as is or followed by `-N`; a slide whose first heading has
/// level 1, or that has none, keeps its HTML as rendered. (pulldown-cmark
/// gives no other levels.)
pub proof fn law_first_heading_anchored(markdown: Seq<char>, chapter_name: Seq<char>, k: int)
    requires
        0 <= k < slides_of(markdown).len(),
    ensures
        exists|htmls: Seq<Seq<char>>|
            {
                let content = without_notes(slides_of(markdown)[k]);
                let html = slide_markup(content);
                &&& presentation(markdown, chapter_name) == #[trigger] deck_block(
                    htmls,
                    chapter_name,
                ) + deck_script()
                &&& htmls.len() == slides_of(markdown).len()
                &&& match first_heading_of(slide_events(content)) {
                    Some((level, text)) => if 2 <= level && level <= 6 {
                        exists|n: nat|
                            htmls[k] == anchorized(
                                html,
                                crate::slug::candidate(slug_of(text), n),
                            )
                    } else if level < 2 {
                        htmls[k] == html
                    } else {
                        true
                    },
                    None => htmls[k] == html,
                }
            },
{
    let slides = slides_of(markdown);
    let htmls = render_slides(slides).0;
    lemma_render_slides_at(slides, k);
    let used = render_slides(slides.take(k)).1;
    let content = without_notes(slides[k]);
    match first_heading_of(slide_events(content)) {
        Some((level, text)) => {
            if 2 <= level && level <= 6 {
                let n = choose|n: nat| crate::slug::first_free(slug_of(text), used, n);
                assert(render_slide(slides[k], used).0 == anchorized(
                    slide_markup(content),
                    unique_id_of(slug_of(text), used),
                ));
                assert(htmls[k] == anchorized(
                    slide_markup(content),
                    crate::slug::candidate(slug_of(text), n),
                ));
            } else if level < 2 {
                assert(htmls[k] == slide_markup(content));
            }
        },
        None => {
            assert(htmls[k] == slide_markup(content));
        },
    }
    assert(presentation(markdown, chapter_name) == deck_block(htmls, chapter_name) + deck_script());
}

} // verus!
