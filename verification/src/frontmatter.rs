//! The YAML frontmatter block at the top of a chapter.
//!
//! The block is `---`, optional spaces or tabs and a line feed, the YAML
//! text, then a line that is `---` with optional spaces or tabs, ended by a
//! line feed; the YAML text ends at the first such closing line. Reading the
//! YAML itself into a [`FrontmatterConfig`] is the caller's part.

use vstd::prelude::*;
use crate::text::{chars_of, string_of};

verus! {

/// Per-file frontmatter configuration read from YAML.
/// Unknown fields are ignored; `slides` is `false` when absent.
pub struct FrontmatterConfig {
    pub slides: bool,
}

impl Default for FrontmatterConfig {
    fn default() -> (r: Self)
        ensures
            !r.slides,
    {
        FrontmatterConfig { slides: false }
    }
}

/// Result of parsing frontmatter from a markdown file.
pub struct ParseResult {
    pub config: FrontmatterConfig,
    /// The markdown content after stripping the frontmatter block.
    pub content: String,
}

/// A frontmatter block found at the top of a chapter.
pub struct FrontmatterBlock {
    /// The YAML text between the fences.
    pub yaml: String,
    /// Everything after the closing fence's line feed.
    pub body: String,
}

/// The index just past a run of spaces and tabs that starts at `i`.
pub open spec fn blanks_end(s: Seq<char>, i: int) -> int
    decreases s.len() - i,
{
    if 0 <= i < s.len() && (s[i] == ' ' || s[i] == '\t') {
        blanks_end(s, i + 1)
    } else {
        i
    }
}

pub proof fn lemma_blanks_end(s: Seq<char>, i: int)
    requires
        0 <= i <= s.len(),
    ensures
        i <= blanks_end(s, i) <= s.len(),
        forall|k: int| i <= k < blanks_end(s, i) ==> (s[k] == ' ' || s[k] == '\t'),
        blanks_end(s, i) < s.len() ==> !(s[blanks_end(s, i)] == ' ' || s[blanks_end(s, i)]
            == '\t'),
    decreases s.len() - i,
{
    if 0 <= i < s.len() && (s[i] == ' ' || s[i] == '\t') {
        lemma_blanks_end(s, i + 1);
    }
}

/// A fence line `---[ \t]*\n` starts at `i`.
pub open spec fn fence_at(s: Seq<char>, i: int) -> bool {
    &&& 0 <= i && i + 3 <= s.len()
    &&& s[i] == '-' && s[i + 1] == '-' && s[i + 2] == '-'
    &&& blanks_end(s, i + 3) < s.len()
    &&& s[blanks_end(s, i + 3)] == '\n'
}

/// The index just past the line feed of the fence line at `i`.
pub open spec fn fence_end(s: Seq<char>, i: int) -> int {
    blanks_end(s, i + 3) + 1
}

/// The YAML text can end at `j`: a line feed, then a closing fence line.
pub open spec fn closes_at(s: Seq<char>, j: int) -> bool {
    0 <= j < s.len() && s[j] == '\n' && fence_at(s, j + 1)
}

/// `j` is the first place at or after `from` where the YAML text can end.
pub open spec fn first_close_is(s: Seq<char>, from: int, j: int) -> bool {
    from <= j && closes_at(s, j) && forall|k: int| from <= k < j ==> !closes_at(s, k)
}

/// The frontmatter of `s`: its YAML text and the body after the block, when
/// `s` opens with a fence line and a closing fence line follows.
pub open spec fn frontmatter_of(s: Seq<char>) -> Option<(Seq<char>, Seq<char>)> {
    if fence_at(s, 0) && exists|j: int| fence_end(s, 0) <= j && closes_at(s, j) {
        let open_end = fence_end(s, 0);
        let j = choose|j: int| first_close_is(s, open_end, j);
        Some((s.subrange(open_end, j), s.subrange(fence_end(s, j + 1), s.len() as int)))
    } else {
        None
    }
}

pub open spec fn block_view(b: Option<FrontmatterBlock>) -> Option<(Seq<char>, Seq<char>)> {
    match b {
        Some(b) => Some((b.yaml@, b.body@)),
        None => None,
    }
}

fn skip_blanks(v: &Vec<char>, i: usize) -> (e: usize)
    requires
        i <= v@.len(),
    ensures
        e == blanks_end(v@, i as int),
        i <= e <= v@.len(),
{
    let mut e = i;
    while e < v.len() && (v[e] == ' ' || v[e] == '\t')
        invariant
            i <= e <= v@.len(),
            blanks_end(v@, i as int) == blanks_end(v@, e as int),
        decreases v@.len() - e,
    {
        e = e + 1;
    }
    e
}

fn is_fence_at(v: &Vec<char>, i: usize) -> (b: bool)
    ensures
        b == fence_at(v@, i as int),
{
    if i > v.len() || v.len() - i < 3 || v[i] != '-' || v[i + 1] != '-' || v[i + 2] != '-' {
        return false;
    }
    let e = skip_blanks(v, i + 3);
    e < v.len() && v[e] == '\n'
}

/// Finds the frontmatter block at the top of `input`: the text between an
/// opening `---` line and the first closing `---` line after it, and the
/// body after the closing line.
pub fn split_frontmatter(input: &str) -> (r: Option<FrontmatterBlock>)
    ensures
        block_view(r) == frontmatter_of(input@),
{
    let v = chars_of(input);
    if !is_fence_at(&v, 0) {
        return None;
    }
    let open_end = skip_blanks(&v, 3) + 1;
    let mut j = open_end;
    while j < v.len()
        invariant
            v@ == input@,
            fence_at(v@, 0),
            open_end == fence_end(v@, 0),
            open_end <= j <= v@.len(),
            forall|k: int| open_end <= k < j ==> !closes_at(v@, k),
        decreases v@.len() - j,
    {
        if v[j] == '\n' && is_fence_at(&v, j + 1) {
            let close_end = skip_blanks(&v, j + 4) + 1;
            proof {
                lemma_blanks_end(v@, j + 4);
                assert(first_close_is(v@, open_end as int, j as int));
                let c = choose|c: int| first_close_is(v@, open_end as int, c);
                assert(first_close_is(v@, open_end as int, c));
                if c < j {
                    assert(!closes_at(v@, c));
                } else if j < c {
                    assert(!closes_at(v@, j as int));
                }
            }
            let yaml = string_of(&v, open_end, j);
            let body = string_of(&v, close_end, v.len());
            return Some(FrontmatterBlock { yaml, body });
        }
        j = j + 1;
    }
    assert(!exists|k: int| fence_end(v@, 0) <= k && closes_at(v@, k));
    None
}

/// Law: a chapter with frontmatter is exactly its opening fence line, the
/// YAML text, a line feed and the closing fence line, then the body; and no
/// closing fence line stands earlier in the YAML text.
pub proof fn law_frontmatter_reassembles(s: Seq<char>)
    ensures
        frontmatter_of(s) matches Some((yaml, body)) ==> exists|j: int|
            #![trigger closes_at(s, j)]
            {
                &&& first_close_is(s, fence_end(s, 0), j)
                &&& s == s.subrange(0, fence_end(s, 0)) + yaml + s.subrange(j, fence_end(s, j + 1))
                    + body
            },
{
    if let Some((yaml, body)) = frontmatter_of(s) {
        let open_end = fence_end(s, 0);
        let j = choose|j: int| first_close_is(s, open_end, j);
        let w = choose|w: int| fence_end(s, 0) <= w && closes_at(s, w);
        lemma_first_close_exists(s, open_end, open_end, w);
        assert(first_close_is(s, open_end, j));
        lemma_blanks_end(s, 3);
        lemma_blanks_end(s, j + 4);
        assert(s == s.subrange(0, open_end) + yaml + s.subrange(j, fence_end(s, j + 1)) + body);
        assert(closes_at(s, j));
    }
}

proof fn lemma_first_close_exists(s: Seq<char>, from: int, k: int, w: int)
    requires
        from <= k <= w,
        closes_at(s, w),
        forall|i: int| from <= i < k ==> !closes_at(s, i),
    ensures
        exists|j: int| first_close_is(s, from, j),
    decreases w - k,
{
    if closes_at(s, k) {
        assert(first_close_is(s, from, k));
    } else {
        lemma_first_close_exists(s, from, k + 1, w);
    }
}

} // verus!
