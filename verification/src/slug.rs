//! Heading ids in mdBook's shape: `id_from_content` and `unique_id`.

use vstd::prelude::*;
use crate::text::{
    alphanumeric, chars_of, decimal, decimal_string, digit_char, is_alphanumeric, is_ascii_char,
    is_whitespace, lowercase, push_char, to_lowercase, trim, trim_bounds, white_space,
};

verus! {

broadcast use vstd::set::group_set_axioms;

// ---------------------------------------------------------------------
// id_from_content
// ---------------------------------------------------------------------

/// What one character of the lowercased, trimmed heading text contributes to
/// its id: alphanumerics, `_` and `-` are kept, white space becomes `-`,
/// everything else is dropped.
pub open spec fn slug_piece(c: char) -> Seq<char> {
    if alphanumeric(c) || c == '_' || c == '-' {
        seq![c]
    } else if white_space(c) {
        seq!['-']
    } else {
        Seq::empty()
    }
}

pub open spec fn slug_chars(s: Seq<char>) -> Seq<char>
    decreases s.len(),
{
    if s.len() == 0 {
        Seq::empty()
    } else {
        slug_chars(s.drop_last()) + slug_piece(s.last())
    }
}

/// mdBook's `id_from_content`: trim, lowercase, then map each character.
pub open spec fn slug_of(content: Seq<char>) -> Seq<char> {
    slug_chars(lowercase(trim(content)))
}

/// A character that may stand in an id.
pub open spec fn id_char(c: char) -> bool {
    alphanumeric(c) || c == '_' || c == '-'
}

/// Reproduces mdBook's `id_from_content`: `trim()` and `to_lowercase()`, then
/// per character keep alphanumerics, `_` and `-`, map white space to `-`,
/// and drop everything else. Consecutive hyphens are not collapsed.
pub fn id_from_content(content: &str) -> (id: String)
    ensures
        id@ == slug_of(content@),
{
    let chars = chars_of(content);
    let (a, b) = trim_bounds(&chars, 0, chars.len());
    let trimmed = content.substring_char(a, b);
    assert(chars@.subrange(0, chars@.len() as int) == content@);
    let lowered = to_lowercase(trimmed);
    let low = chars_of(lowered.as_str());
    let mut id = String::new();
    let mut i: usize = 0;
    while i < low.len()
        invariant
            i <= low@.len(),
            low@ == lowercase(trim(content@)),
            id@ == slug_chars(low@.take(i as int)),
        decreases low@.len() - i,
    {
        let c = low[i];
        if is_alphanumeric(c) || c == '_' || c == '-' {
            push_char(&mut id, c);
        } else if is_whitespace(c) {
            push_char(&mut id, '-');
        }
        assert(low@.take(i + 1).drop_last() == low@.take(i as int));
        i = i + 1;
    }
    assert(low@.take(low@.len() as int) == low@);
    id
}

/// Every character of an id is alphanumeric, `_` or `-`.
pub proof fn lemma_slug_chars_are_id_chars(s: Seq<char>)
    ensures
        forall|i: int| 0 <= i < slug_chars(s).len() ==> id_char(#[trigger] slug_chars(s)[i]),
    decreases s.len(),
{
    if s.len() > 0 {
        lemma_slug_chars_are_id_chars(s.drop_last());
        let prev = slug_chars(s.drop_last());
        let piece = slug_piece(s.last());
        assert forall|i: int| 0 <= i < slug_chars(s).len() implies id_char(
            #[trigger] slug_chars(s)[i],
        ) by {
            if i >= prev.len() {
                assert(slug_chars(s)[i] == piece[i - prev.len()]);
                assert(id_char('-')) by {
                    assert(is_ascii_char('-'));
                }
            } else {
                assert(slug_chars(s)[i] == prev[i]);
            }
        }
    }
}

/// Law: every character of `id_from_content`'s result is alphanumeric, `_`
/// or `-`, so an id never holds white space, quotes or angle brackets.
pub proof fn law_ids_hold_only_id_chars(content: Seq<char>)
    ensures
        forall|i: int| 0 <= i < slug_of(content).len() ==> id_char(#[trigger] slug_of(content)[i]),
{
    lemma_slug_chars_are_id_chars(lowercase(trim(content)));
}

/// Each character of `slug_chars(s)` is `-` or a character of `s`.
proof fn lemma_slug_chars_from(s: Seq<char>)
    ensures
        forall|i: int|
            0 <= i < slug_chars(s).len() ==> #[trigger] slug_chars(s)[i] == '-' || s.contains(
                slug_chars(s)[i],
            ),
    decreases s.len(),
{
    if s.len() > 0 {
        lemma_slug_chars_from(s.drop_last());
        let prev = slug_chars(s.drop_last());
        assert forall|i: int| 0 <= i < slug_chars(s).len() implies #[trigger] slug_chars(s)[i]
            == '-' || s.contains(slug_chars(s)[i]) by {
            if i < prev.len() {
                assert(slug_chars(s)[i] == prev[i]);
                if prev[i] != '-' {
                    let j = choose|j: int| 0 <= j < s.drop_last().len() && s.drop_last()[j] == prev[i];
                    assert(s[j] == prev[i]);
                }
            } else {
                assert(slug_chars(s)[i] == slug_piece(s.last())[i - prev.len()]);
                assert(s[s.len() - 1] == s.last());
            }
        }
    }
}

/// Text made only of id characters, none of them white space, maps to itself.
proof fn lemma_slug_chars_fixed(s: Seq<char>)
    requires
        forall|i: int| 0 <= i < s.len() ==> id_char(#[trigger] s[i]),
    ensures
        slug_chars(s) == s,
    decreases s.len(),
{
    if s.len() > 0 {
        lemma_slug_chars_fixed(s.drop_last());
        assert(id_char(s[s.len() - 1]));
        assert(s.drop_last() + seq![s.last()] == s);
    }
}

/// An ASCII id character is not white space and is not an upper-case letter.
proof fn lemma_ascii_id_char(c: char)
    requires
        is_ascii_char(c),
        id_char(c),
        !('A' <= c && c <= 'Z'),
    ensures
        !white_space(c),
        crate::text::ascii_lower_char(c) == c,
{
}

/// Law: when the text left after trimming is ASCII (white space of any
/// kind may surround it), computing the id of the id gives the id back.
pub proof fn law_id_of_id_on_ascii(content: Seq<char>)
    requires
        crate::text::all_ascii(trim(content)),
    ensures
        slug_of(slug_of(content)) == slug_of(content),
{
    let t = trim(content);
    let l = lowercase(t);
    assert(l == crate::text::ascii_lowercase(t));
    assert forall|i: int| 0 <= i < l.len() implies is_ascii_char(#[trigger] l[i]) && !('A' <= l[i]
        && l[i] <= 'Z') by {
        assert(l[i] == crate::text::ascii_lower_char(t[i]));
        assert(is_ascii_char(t[i]));
    }
    let s = slug_chars(l);
    lemma_slug_chars_from(l);
    lemma_slug_chars_are_id_chars(l);
    assert forall|i: int| 0 <= i < s.len() implies is_ascii_char(#[trigger] s[i]) && !('A' <= s[i]
        && s[i] <= 'Z') && !white_space(s[i]) by {
        assert(id_char(s[i]));
        if s[i] != '-' {
            let j = choose|j: int| 0 <= j < l.len() && l[j] == s[i];
            assert(is_ascii_char(l[j]));
        }
        assert(is_ascii_char(s[i]));
        lemma_ascii_id_char(s[i]);
    }
    // trimming the id changes nothing
    if s.len() > 0 {
        assert(!white_space(s[0]));
        assert(crate::text::trim_start(s) == s);
        assert(!white_space(s.last()));
        assert(crate::text::trim_end(s) == s);
    } else {
        assert(crate::text::trim_start(s) == s);
        assert(crate::text::trim_end(s) == s);
    }
    assert(trim(s) == s);
    // nor does lowercasing it
    assert(crate::text::all_ascii(s));
    assert forall|i: int| 0 <= i < s.len() implies #[trigger] crate::text::ascii_lowercase(s)[i]
        == s[i] by {
        lemma_ascii_id_char(s[i]);
    }
    assert(crate::text::ascii_lowercase(s) == s);
    assert(lowercase(s) == s);
    lemma_slug_chars_fixed(s);
}

// ---------------------------------------------------------------------
// The set of ids in use
// ---------------------------------------------------------------------

/// The ids already handed out in one deck, without repetition.
pub struct UsedIds {
    ids: Vec<String>,
}

impl UsedIds {
    pub closed spec fn keys(&self) -> Seq<Seq<char>> {
        self.ids@.map_values(|s: String| s@)
    }

    #[verifier::type_invariant]
    closed spec fn no_repeats(&self) -> bool {
        self.keys().no_duplicates()
    }

    /// The ids as a set of character sequences.
    pub closed spec fn view(&self) -> Set<Seq<char>> {
        self.keys().to_set()
    }

    proof fn lemma_finite(&self)
        requires
            self.no_repeats(),
        ensures
            self.view().finite(),
            self.view().len() == self.keys().len(),
    {
        self.keys().unique_seq_to_set();
        vstd::seq_lib::seq_to_set_is_finite(self.keys());
    }

    /// An empty set of ids.
    pub fn new() -> (r: Self)
        ensures
            r.view() == Set::<Seq<char>>::empty(),
            r.view().finite(),
    {
        let r = UsedIds { ids: Vec::new() };
        assert(r.keys().to_set() =~= Set::<Seq<char>>::empty());
        r
    }

    /// The number of ids in use.
    pub fn len(&self) -> (n: usize)
        ensures
            n == self.view().len(),
            self.view().finite(),
    {
        proof {
            use_type_invariant(self);
            self.lemma_finite();
        }
        self.ids.len()
    }

    /// Whether `id` is in use.
    pub fn contains(&self, id: &str) -> (b: bool)
        ensures
            b == self.view().contains(id@),
    {
        let key = String::from_str(id);
        let mut i: usize = 0;
        while i < self.ids.len()
            invariant
                key@ == id@,
                i <= self.ids@.len(),
                forall|j: int| 0 <= j < i ==> self.keys()[j] != id@,
            decreases self.ids@.len() - i,
        {
            if self.ids[i].eq(&key) {
                assert(self.keys()[i as int] == id@);
                assert(self.keys().contains(id@));
                return true;
            }
            i = i + 1;
        }
        assert(!self.keys().contains(id@));
        false
    }

    /// Adds `id`; `true` when it was not in use before (as `HashSet::insert`).
    pub fn insert(&mut self, id: String) -> (added: bool)
        ensures
            final(self).view() == old(self).view().insert(id@),
            added == !old(self).view().contains(id@),
            final(self).view().finite(),
    {
        proof {
            use_type_invariant(&*self);
            self.lemma_finite();
        }
        if self.contains(id.as_str()) {
            assert(self.view().insert(id@) =~= self.view());
            return false;
        }
        proof {
            use_type_invariant(&*self);
        }
        let ghost old_keys = self.keys();
        let ghost v = id@;
        let mut ids: Vec<String> = Vec::new();
        std::mem::swap(&mut ids, &mut self.ids);
        ids.push(id);
        assert(ids@.map_values(|s: String| s@) =~= old_keys.push(v));
        self.ids = ids;
        assert(self.keys() =~= old_keys.push(v));
        proof {
            old_keys.lemma_push_to_set_commute(v);
        }
        true
    }
}

// ---------------------------------------------------------------------
// unique_id
// ---------------------------------------------------------------------

/// The `k`-th name tried for `id`: `id` itself, then `id-1`, `id-2`, ...
pub open spec fn candidate(id: Seq<char>, k: nat) -> Seq<char> {
    if k == 0 {
        id
    } else {
        id + seq!['-'] + decimal(k)
    }
}

/// `k` is the first attempt whose name is not in `used`.
pub open spec fn first_free(id: Seq<char>, used: Set<Seq<char>>, k: nat) -> bool {
    !used.contains(candidate(id, k)) && forall|j: nat| j < k ==> used.contains(
        #[trigger] candidate(id, j),
    )
}

/// mdBook's `unique_id`: the first of `id`, `id-1`, `id-2`, ... not in `used`.
pub open spec fn unique_id_of(id: Seq<char>, used: Set<Seq<char>>) -> Seq<char> {
    candidate(id, choose|k: nat| first_free(id, used, k))
}

pub proof fn lemma_decimal_nonempty(n: nat)
    ensures
        decimal(n).len() >= 1,
        n >= 10 ==> decimal(n).len() >= 2,
    decreases n,
{
    if n >= 10 {
        lemma_decimal_nonempty(n / 10);
    }
}

pub proof fn lemma_digit_char_injective(a: nat, b: nat)
    requires
        a < 10,
        b < 10,
        digit_char(a) == digit_char(b),
    ensures
        a == b,
{
    assert((digit_char(a) as u32) == 48 + a);
    assert((digit_char(b) as u32) == 48 + b);
}

/// Distinct numbers have distinct numerals.
pub proof fn lemma_decimal_injective(a: nat, b: nat)
    requires
        decimal(a) == decimal(b),
    ensures
        a == b,
    decreases a,
{
    lemma_decimal_nonempty(a);
    lemma_decimal_nonempty(b);
    if a < 10 && b < 10 {
        assert(decimal(a) == seq![digit_char(a)]);
        assert(decimal(b) == seq![digit_char(b)]);
        assert(decimal(a)[0] == digit_char(a));
        assert(decimal(b)[0] == digit_char(b));
        lemma_digit_char_injective(a, b);
    } else if a >= 10 && b >= 10 {
        assert(decimal(a).drop_last() == decimal(a / 10));
        assert(decimal(b).drop_last() == decimal(b / 10));
        lemma_decimal_injective(a / 10, b / 10);
        assert(decimal(a) == decimal(a / 10).push(digit_char(a % 10)));
        assert(decimal(b) == decimal(b / 10).push(digit_char(b % 10)));
        assert(decimal(a).last() == digit_char(a % 10));
        assert(decimal(b).last() == digit_char(b % 10));
        lemma_digit_char_injective(a % 10, b % 10);
    } else {
        assert(decimal(a).len() != decimal(b).len());
    }
}

/// Different attempts give different names.
pub proof fn lemma_candidate_injective(id: Seq<char>, j: nat, k: nat)
    requires
        j != k,
    ensures
        candidate(id, j) != candidate(id, k),
{
    if j == 0 {
        lemma_decimal_nonempty(k);
        assert(candidate(id, k).len() > id.len());
    } else if k == 0 {
        lemma_decimal_nonempty(j);
        assert(candidate(id, j).len() > id.len());
    } else if candidate(id, j) == candidate(id, k) {
        let pre = id + seq!['-'];
        assert(candidate(id, j).subrange(pre.len() as int, candidate(id, j).len() as int)
            == decimal(j));
        assert(candidate(id, k).subrange(pre.len() as int, candidate(id, k).len() as int)
            == decimal(k));
        lemma_decimal_injective(j, k);
    }
}

pub proof fn lemma_first_free_unique(id: Seq<char>, used: Set<Seq<char>>, k: nat)
    requires
        first_free(id, used, k),
    ensures
        unique_id_of(id, used) == candidate(id, k),
{
    let c = choose|c: nat| first_free(id, used, c);
    assert(first_free(id, used, c));
    if c < k {
        assert(used.contains(candidate(id, c)));
    } else if k < c {
        assert(used.contains(candidate(id, k)));
    }
}

/// Reproduces mdBook's `unique_id`: `id` if it is not in `used`, else the
/// first of `id-1`, `id-2`, ... that is not; the winner is recorded in `used`.
pub fn unique_id(id: &str, used: &mut UsedIds) -> (r: String)
    ensures
        r@ == unique_id_of(id@, old(used).view()),
        exists|k: nat| first_free(id@, old(used).view(), k) && r@ == candidate(id@, k),
        !old(used).view().contains(r@),
        final(used).view() == old(used).view().insert(r@),
        final(used).view().finite(),
{
    let ghost used0 = used.view();
    let in_use = used.len();
    proof {
        use_type_invariant(&*used);
        used.lemma_finite();
    }
    if used.insert(String::from_str(id)) {
        proof {
            assert(first_free(id@, used0, 0));
            lemma_first_free_unique(id@, used0, 0);
        }
        return String::from_str(id);
    }
    let mut counter: u64 = 1;
    let ghost mut tried: Set<Seq<char>> = set![id@];
    assert(candidate(id@, 0) == id@);
    assert(tried.len() == 1) by {
        assert(tried == Set::<Seq<char>>::empty().insert(id@));
    }
    loop
        invariant
            used.view() == used0,
            used0 == old(used).view(),
            used0.finite(),
            used0.len() == in_use,
            1 <= counter,
            forall|j: nat| j < counter ==> used0.contains(#[trigger] candidate(id@, j)),
            tried.finite(),
            tried.len() == counter,
            tried.subset_of(used0),
            forall|x: Seq<char>| #[trigger] tried.contains(x) ==> exists|j: nat|
                j < counter && x == candidate(id@, j),
        decreases used0.len() - counter,
    {
        let mut name = String::from_str(id);
        name.append("-");
        let digits = decimal_string(counter);
        name.append(digits.as_str());
        proof {
            reveal_strlit("-");
            assert(name@ == candidate(id@, counter as nat));
        }
        if used.insert(name.clone()) {
            proof {
                assert(!used0.contains(name@));
                assert(used.view() == used0.insert(name@));
                assert(first_free(id@, used0, counter as nat));
                lemma_first_free_unique(id@, used0, counter as nat);
            }
            return name;
        }
        proof {
            let c = candidate(id@, counter as nat);
            assert(!tried.contains(c)) by {
                if tried.contains(c) {
                    let j = choose|j: nat| j < counter && c == candidate(id@, j);
                    lemma_candidate_injective(id@, j, counter as nat);
                }
            }
            let tried2 = tried.insert(c);
            assert(tried2.len() == counter + 1);
            vstd::set_lib::lemma_len_subset(tried2, used0);
            assert forall|x: Seq<char>| #[trigger] tried2.contains(x) implies exists|j: nat|
                j < counter + 1 && x == candidate(id@, j) by {
                if x == c {
                    assert(x == candidate(id@, counter as nat));
                } else {
                    assert(tried.contains(x));
                }
            }
            tried = tried2;
        }
        counter = counter + 1;
    }
}

/// The names of the first `m` attempts.
pub open spec fn attempts(id: Seq<char>, m: nat) -> Set<Seq<char>>
    decreases m,
{
    if m == 0 {
        Set::empty()
    } else {
        attempts(id, (m - 1) as nat).insert(candidate(id, (m - 1) as nat))
    }
}

proof fn lemma_attempts(id: Seq<char>, m: nat)
    ensures
        attempts(id, m).finite(),
        attempts(id, m).len() == m,
        forall|x: Seq<char>| #[trigger] attempts(id, m).contains(x) ==> exists|k: nat|
            k < m && x == candidate(id, k),
        forall|k: nat| k < m ==> attempts(id, m).contains(#[trigger] candidate(id, k)),
    decreases m,
{
    if m > 0 {
        let p = (m - 1) as nat;
        lemma_attempts(id, p);
        let c = candidate(id, p);
        assert(!attempts(id, p).contains(c)) by {
            if attempts(id, p).contains(c) {
                let k = choose|k: nat| k < p && c == candidate(id, k);
                lemma_candidate_injective(id, k, p);
            }
        }
        assert forall|x: Seq<char>| #[trigger] attempts(id, m).contains(x) implies exists|k: nat|
            k < m && x == candidate(id, k) by {
            if x != c {
                assert(attempts(id, p).contains(x));
            }
        }
        assert forall|k: nat| k < m implies attempts(id, m).contains(
            #[trigger] candidate(id, k),
        ) by {
            if k < p {
                assert(attempts(id, p).contains(candidate(id, k)));
            }
        }
    }
}

/// A finite set of ids leaves some attempt free.
proof fn lemma_some_attempt_free(id: Seq<char>, used: Set<Seq<char>>) -> (k: nat)
    requires
        used.finite(),
    ensures
        !used.contains(candidate(id, k)),
{
    let m = used.len() + 1;
    lemma_attempts(id, m);
    if forall|k: nat| k < m ==> used.contains(#[trigger] candidate(id, k)) {
        assert(attempts(id, m).subset_of(used)) by {
            assert forall|x: Seq<char>| #[trigger] attempts(id, m).contains(x) implies used.contains(
                x,
            ) by {
                let k = choose|k: nat| k < m && x == candidate(id, k);
                assert(used.contains(candidate(id, k)));
            }
        }
        vstd::set_lib::lemma_len_subset(attempts(id, m), used);
        assert(false);
        0
    } else {
        choose|k: nat| k < m && !used.contains(#[trigger] candidate(id, k))
    }
}

proof fn lemma_first_free_from(id: Seq<char>, used: Set<Seq<char>>, j: nat, free: nat)
    requires
        j <= free,
        !used.contains(candidate(id, free)),
        forall|k: nat| k < j ==> used.contains(#[trigger] candidate(id, k)),
    ensures
        exists|k: nat| first_free(id, used, k),
    decreases free - j,
{
    if !used.contains(candidate(id, j)) {
        assert(first_free(id, used, j));
    } else {
        assert forall|k: nat| k < j + 1 implies used.contains(#[trigger] candidate(id, k)) by {
            if k < j {
                assert(used.contains(candidate(id, k)));
            }
        }
        lemma_first_free_from(id, used, j + 1, free);
    }
}

/// Among finitely many ids in use, `unique_id_of` is the first free attempt;
/// in particular it is not in use.
pub proof fn lemma_unique_id_is_free(id: Seq<char>, used: Set<Seq<char>>)
    requires
        used.finite(),
    ensures
        !used.contains(unique_id_of(id, used)),
        exists|k: nat| first_free(id, used, k) && unique_id_of(id, used) == candidate(id, k),
{
    let free = lemma_some_attempt_free(id, used);
    lemma_first_free_from(id, used, 0, free);
    let k = choose|k: nat| first_free(id, used, k);
    assert(first_free(id, used, k));
    lemma_first_free_unique(id, used, k);
}

} // verus!
