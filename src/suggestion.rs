//! Completion candidates bound to ranges of the command text, and the
//! builder that collects them.
use core::cmp::Ordering;

use vstd::prelude::*;

use crate::context::StringRange;
use crate::text::{byte_len, byte_length, byte_slice, is_boundary, lemma_split_chars, str_slice};

verus! {

broadcast use {vstd::utf8::group_utf8_lib, vstd::string::group_string_axioms};

/// Lexicographic order of char sequences, by code point.
pub open spec fn lex_cmp(a: Seq<char>, b: Seq<char>) -> Ordering
    decreases a.len(),
{
    if a.len() == 0 {
        if b.len() == 0 {
            Ordering::Equal
        } else {
            Ordering::Less
        }
    } else if b.len() == 0 {
        Ordering::Greater
    } else if (a[0] as u32) < (b[0] as u32) {
        Ordering::Less
    } else if (a[0] as u32) > (b[0] as u32) {
        Ordering::Greater
    } else {
        lex_cmp(a.drop_first(), b.drop_first())
    }
}

pub proof fn lemma_lex_equal(a: Seq<char>, b: Seq<char>)
    ensures
        (lex_cmp(a, b) == Ordering::Equal) <==> (a == b),
    decreases a.len(),
{
    if a.len() == 0 && b.len() == 0 {
        assert(a =~= b);
    }
    if a.len() > 0 && b.len() > 0 {
        lemma_lex_equal(a.drop_first(), b.drop_first());
        if (a[0] as u32) == (b[0] as u32) {
            vstd::utf8::char_u32_cast(a[0], a[0] as u32);
            vstd::utf8::char_u32_cast(b[0], b[0] as u32);
            if a.drop_first() == b.drop_first() {
                assert(a =~= seq![a[0]] + a.drop_first());
                assert(b =~= seq![b[0]] + b.drop_first());
            }
        }
        if a == b {
            assert(a.drop_first() == b.drop_first());
        }
    }
}

pub proof fn lemma_lex_antisym(a: Seq<char>, b: Seq<char>)
    ensures
        (lex_cmp(a, b) == Ordering::Greater) <==> (lex_cmp(b, a) == Ordering::Less),
    decreases a.len(),
{
    if a.len() > 0 && b.len() > 0 {
        lemma_lex_antisym(a.drop_first(), b.drop_first());
    }
}

pub proof fn lemma_lex_trans(a: Seq<char>, b: Seq<char>, c: Seq<char>)
    requires
        lex_cmp(a, b) != Ordering::Greater,
        lex_cmp(b, c) != Ordering::Greater,
    ensures
        lex_cmp(a, c) != Ordering::Greater,
        lex_cmp(a, b) == Ordering::Less ==> lex_cmp(a, c) == Ordering::Less,
        lex_cmp(b, c) == Ordering::Less ==> lex_cmp(a, c) == Ordering::Less,
    decreases a.len(),
{
    if a.len() > 0 && b.len() > 0 && c.len() > 0 {
        if (a[0] as u32) == (b[0] as u32) && (b[0] as u32) == (c[0] as u32) {
            lemma_lex_trans(a.drop_first(), b.drop_first(), c.drop_first());
        }
    }
}

/// What `str::to_lowercase` makes of a text.
pub uninterp spec fn lower_of(s: Seq<char>) -> Seq<char>;

/// Relies on `str::to_lowercase`: the result depends on the chars alone.
#[verifier::external_body]
fn to_lower(s: &str) -> (r: String)
    ensures
        r@ == lower_of(s@),
{
    s.to_lowercase()
}

/// Relies on `Ord for str`: strings compare lexicographically by code point.
#[verifier::external_body]
pub(crate) fn compare_str(a: &str, b: &str) -> (r: Ordering)
    ensures
        r == lex_cmp(a@, b@),
{
    a.cmp(b)
}

/// The decimal text of `n`.
pub open spec fn digits_text(n: nat) -> Seq<char>
    decreases n,
{
    if n < 10 {
        seq![((n + 48) as u32) as char]
    } else {
        digits_text(n / 10).push((((n % 10) + 48) as u32) as char)
    }
}

/// The decimal text of `v`, with a leading `-` when negative.
pub open spec fn int_text(v: int) -> Seq<char> {
    if v < 0 {
        seq!['-'] + digits_text((-v) as nat)
    } else {
        digits_text(v as nat)
    }
}

/// Relies on `ToString for i32`: the decimal form, `-` first if negative.
#[verifier::external_body]
pub(crate) fn i32_text(v: i32) -> (r: String)
    ensures
        r@ == int_text(v as int),
{
    v.to_string()
}

/// A range lies within `s` and starts and ends on char boundaries.
pub open spec fn range_in(r: StringRange, s: Seq<char>) -> bool {
    &&& r.start <= r.end <= byte_len(s)
    &&& is_boundary(s, r.start as int)
    &&& is_boundary(s, r.end as int)
}

/// The value of a suggestion.
pub ghost struct SuggestionView {
    pub range: StringRange,
    pub text: Seq<char>,
    pub int_value: Option<i32>,
    pub tooltip: Option<Seq<char>>,
}

pub open spec fn opt_view(o: Option<String>) -> Option<Seq<char>> {
    match o {
        Some(s) => Some(s@),
        None => None,
    }
}

/// The natural order of suggestions: by integer value when both have one,
/// else by text.
pub open spec fn natural_cmp(a: SuggestionView, b: SuggestionView) -> Ordering {
    match (a.int_value, b.int_value) {
        (Some(x), Some(y)) => if x < y {
            Ordering::Less
        } else if x > y {
            Ordering::Greater
        } else {
            Ordering::Equal
        },
        _ => lex_cmp(a.text, b.text),
    }
}

/// The key that suggestions are sorted by: the lowercased text.
pub open spec fn sort_key(s: SuggestionView) -> Seq<char> {
    lower_of(s.text)
}

/// `s` widened to `range`: the text gains the command text between the two
/// starts and between the two ends; the integer is dropped.
pub open spec fn expand_view(command: Seq<char>, s: SuggestionView, range: StringRange) -> SuggestionView {
    if range == s.range {
        s
    } else {
        SuggestionView {
            range,
            text: (if range.start < s.range.start {
                byte_slice(command, range.start as int, s.range.start as int)
            } else {
                seq![]
            }) + s.text + (if range.end > s.range.end {
                byte_slice(command, s.range.end as int, range.end as int)
            } else {
                seq![]
            }),
            int_value: None,
            tooltip: s.tooltip,
        }
    }
}

/// `input` with the bytes of `s`'s range replaced by its text.
pub open spec fn apply_view(s: SuggestionView, input: Seq<char>) -> Seq<char> {
    byte_slice(input, 0, s.range.start as int) + s.text + byte_slice(
        input,
        s.range.end as int,
        byte_len(input) as int,
    )
}

/// A completion candidate: a replacement text for a byte range of the
/// command, with an optional integer value and tooltip.
#[derive(Debug, Clone, PartialEq, Eq, Hash, Default)]
pub struct Suggestion {
    range: StringRange,
    text: String,
    int_value: Option<i32>,
    pub tooltip: Option<String>,
}

impl View for Suggestion {
    type V = SuggestionView;

    closed spec fn view(&self) -> SuggestionView {
        SuggestionView {
            range: self.range,
            text: self.text@,
            int_value: self.int_value,
            tooltip: opt_view(self.tooltip),
        }
    }
}

fn copy_opt(o: &Option<String>) -> (r: Option<String>)
    ensures
        opt_view(r) == opt_view(*o),
{
    match o {
        Some(s) => Some(s.clone()),
        None => None,
    }
}

impl Suggestion {
    pub fn range(&self) -> (r: StringRange)
        ensures
            r == self@.range,
    {
        self.range
    }

    pub fn int_value(&self) -> (r: Option<i32>)
        ensures
            r == self@.int_value,
    {
        self.int_value
    }

    pub fn text(&self) -> (r: &str)
        ensures
            r@ == self@.text,
    {
        self.text.as_str()
    }

    pub fn tooltip(&self) -> (r: Option<&str>)
        ensures
            r matches Some(t) ==> self@.tooltip == Some(t@),
            r is None ==> self@.tooltip is None,
    {
        match &self.tooltip {
            Some(t) => Some(t.as_str()),
            None => None,
        }
    }

    /// A copy with the same value.
    pub fn duplicate(&self) -> (r: Self)
        ensures
            r@ == self@,
    {
        Suggestion {
            range: self.range,
            text: self.text.clone(),
            int_value: self.int_value,
            tooltip: copy_opt(&self.tooltip),
        }
    }

    /// Equality of values: range, text, integer and tooltip.
    pub fn same_as(&self, other: &Self) -> (r: bool)
        ensures
            r == (self@ == other@),
    {
        let tips = match (&self.tooltip, &other.tooltip) {
            (Some(a), Some(b)) => *a == *b,
            (None, None) => true,
            _ => false,
        };
        self.range == other.range && self.text == other.text && self.int_value == other.int_value && tips
    }

    /// The natural order: by integer value when both have one, else by text.
    pub fn cmp(&self, other: &Self) -> (r: Ordering)
        ensures
            r == natural_cmp(self@, other@),
    {
        match (self.int_value, other.int_value) {
            (Some(a), Some(b)) => if a < b {
                Ordering::Less
            } else if a > b {
                Ordering::Greater
            } else {
                Ordering::Equal
            },
            _ => compare_str(self.text.as_str(), other.text.as_str()),
        }
    }

    /// Compares the lowercased texts.
    pub fn cmp_ignore_case(&self, other: &Self) -> (r: Ordering)
        ensures
            r == lex_cmp(sort_key(self@), sort_key(other@)),
    {
        let a = to_lower(self.text.as_str());
        let b = to_lower(other.text.as_str());
        compare_str(a.as_str(), b.as_str())
    }

    pub fn new_text(range: StringRange, text: &str) -> (r: Self)
        ensures
            r@ == (SuggestionView { range, text: text@, int_value: None, tooltip: None }),
    {
        Suggestion { range, text: text.to_owned(), int_value: None, tooltip: None }
    }

    pub fn new_text_with_tooltip(range: StringRange, text: &str, tooltip: &str) -> (r: Self)
        ensures
            r@ == (SuggestionView { range, text: text@, int_value: None, tooltip: Some(tooltip@) }),
    {
        Suggestion { range, text: text.to_owned(), int_value: None, tooltip: Some(tooltip.to_owned()) }
    }

    /// A suggestion of an integer; its text is the decimal form.
    pub fn new_int(range: StringRange, value: i32) -> (r: Self)
        ensures
            r@ == (SuggestionView { range, text: int_text(value as int), int_value: Some(value), tooltip: None }),
    {
        Suggestion { range, text: i32_text(value), int_value: Some(value), tooltip: None }
    }

    pub fn new_int_with_tooltip(range: StringRange, value: i32, tooltip: &str) -> (r: Self)
        ensures
            r@ == (SuggestionView {
                range,
                text: int_text(value as int),
                int_value: Some(value),
                tooltip: Some(tooltip@),
            }),
    {
        Suggestion { range, text: i32_text(value), int_value: Some(value), tooltip: Some(tooltip.to_owned()) }
    }

    /// This suggestion widened to `range` (see `expand_view`).
    pub fn expand(&self, command: &str, range: StringRange) -> (r: Self)
        requires
            range_in(range, command@),
            range_in(self@.range, command@),
        ensures
            r@ == expand_view(command@, self@, range),
    {
        if range == self.range {
            return self.duplicate();
        }
        let mut text = String::new();
        if range.start < self.range.start {
            text.append(str_slice(command, range.start, self.range.start));
        }
        text.append(self.text.as_str());
        if range.end > self.range.end {
            text.append(str_slice(command, self.range.end, range.end));
        }
        proof {
            assert(Seq::<char>::empty() + self.text@ =~= self.text@);
            assert(self.text@ + Seq::<char>::empty() =~= self.text@);
        }
        Suggestion { range, text, int_value: None, tooltip: copy_opt(&self.tooltip) }
    }

    /// Like `expand`, consuming this suggestion.
    pub fn expand_owned(self, command: &str, range: StringRange) -> (r: Self)
        requires
            range_in(range, command@),
            range_in(self@.range, command@),
        ensures
            r@ == expand_view(command@, self@, range),
    {
        if range == self.range {
            return self;
        }
        self.expand(command, range)
    }

    /// `input` with this suggestion's range replaced by its text.
    pub fn apply(&self, input: &str) -> (r: String)
        requires
            range_in(self@.range, input@),
        ensures
            r@ == apply_view(self@, input@),
    {
        let n = byte_length(input);
        proof {
            vstd::utf8::is_char_boundary_start_end_of_seq(vstd::utf8::encode_utf8(input@));
        }
        let mut result = String::new();
        result.append(str_slice(input, 0, self.range.start));
        result.append(self.text.as_str());
        result.append(str_slice(input, self.range.end, n));
        proof {
            assert(Seq::<char>::empty() + byte_slice(input@, 0, self.range.start as int)
                =~= byte_slice(input@, 0, self.range.start as int));
        }
        result
    }
}


/// The values of a list of suggestions.
pub open spec fn views(v: Seq<Suggestion>) -> Seq<SuggestionView> {
    v.map_values(|x: Suggestion| x@)
}

/// The smallest start of the items' ranges.
pub open spec fn min_start(items: Seq<SuggestionView>) -> usize
    decreases items.len(),
{
    if items.len() == 0 {
        usize::MAX
    } else {
        let m = min_start(items.drop_last());
        if items.last().range.start < m {
            items.last().range.start
        } else {
            m
        }
    }
}

/// The largest end of the items' ranges.
pub open spec fn max_end(items: Seq<SuggestionView>) -> usize
    decreases items.len(),
{
    if items.len() == 0 {
        0
    } else {
        let m = max_end(items.drop_last());
        if items.last().range.end > m {
            items.last().range.end
        } else {
            m
        }
    }
}

/// The tightest range that contains the ranges of all items.
pub open spec fn encompassing_range(items: Seq<SuggestionView>) -> StringRange {
    StringRange { start: min_start(items), end: max_end(items) }
}

/// Where `x` goes in `acc`: before the first item whose key is greater.
pub open spec fn insert_position(acc: Seq<SuggestionView>, x: SuggestionView) -> int
    decreases acc.len(),
{
    if acc.len() == 0 {
        0
    } else if lex_cmp(sort_key(acc[0]), sort_key(x)) == Ordering::Greater {
        0
    } else {
        1 + insert_position(acc.drop_first(), x)
    }
}

/// `acc` with `x` in its sorted place, unless `acc` has it already.
pub open spec fn insert_unique(acc: Seq<SuggestionView>, x: SuggestionView) -> Seq<SuggestionView> {
    if acc.contains(x) {
        acc
    } else {
        acc.insert(insert_position(acc, x), x)
    }
}

/// The items put one after the other into `acc` by `insert_unique`.
pub open spec fn insert_all(acc: Seq<SuggestionView>, items: Seq<SuggestionView>) -> Seq<
    SuggestionView,
>
    decreases items.len(),
{
    if items.len() == 0 {
        acc
    } else {
        insert_all(insert_unique(acc, items[0]), items.drop_first())
    }
}

/// Every item widened to `range`.
pub open spec fn expand_all(command: Seq<char>, items: Seq<SuggestionView>, range: StringRange) -> Seq<
    SuggestionView,
> {
    items.map_values(|s: SuggestionView| expand_view(command, s, range))
}

/// The value of a set of suggestions.
pub ghost struct SuggestionsView {
    pub range: StringRange,
    pub items: Seq<SuggestionView>,
}

/// What `Suggestions::create` makes of `items`: nothing gives the empty range
/// at 0; otherwise every item widened to the range that encompasses them all,
/// without repeats, sorted by lowercased text.
pub open spec fn create_view(command: Seq<char>, items: Seq<SuggestionView>) -> SuggestionsView {
    if items.len() == 0 {
        SuggestionsView { range: StringRange { start: 0, end: 0 }, items: seq![] }
    } else {
        let r = encompassing_range(items);
        SuggestionsView { range: r, items: insert_all(seq![], expand_all(command, items, r)) }
    }
}

pub open spec fn no_duplicates(s: Seq<SuggestionView>) -> bool {
    forall|i: int, j: int| 0 <= i < j < s.len() ==> s[i] != s[j]
}

pub open spec fn sorted_by_key(s: Seq<SuggestionView>) -> bool {
    forall|i: int, j: int|
        0 <= i < j < s.len() ==> lex_cmp(sort_key(s[i]), sort_key(s[j])) != Ordering::Greater
}

proof fn lemma_range_bounds(items: Seq<SuggestionView>)
    requires
        items.len() > 0,
    ensures
        exists|j: int| 0 <= j < items.len() && min_start(items) == items[j].range.start,
        exists|j: int| 0 <= j < items.len() && max_end(items) == items[j].range.end,
        forall|j: int| 0 <= j < items.len() ==> min_start(items) <= #[trigger] items[j].range.start,
        forall|j: int| 0 <= j < items.len() ==> max_end(items) >= #[trigger] items[j].range.end,
    decreases items.len(),
{
    let n = items.len() as int;
    let init = items.drop_last();
    if n == 1 {
        assert(init.len() == 0);
        assert(min_start(items) == items[0].range.start);
        assert(max_end(items) >= items[0].range.end);
    } else {
        lemma_range_bounds(init);
        let j1 = choose|j: int| 0 <= j < init.len() && min_start(init) == init[j].range.start;
        let j2 = choose|j: int| 0 <= j < init.len() && max_end(init) == init[j].range.end;
        if items.last().range.start < min_start(init) {
            assert(min_start(items) == items[n - 1].range.start);
        } else {
            assert(min_start(items) == items[j1].range.start);
        }
        if items.last().range.end > max_end(init) {
            assert(max_end(items) == items[n - 1].range.end);
        } else {
            assert(max_end(items) == items[j2].range.end);
        }
        assert forall|j: int| 0 <= j < n implies min_start(items) <= #[trigger] items[j].range.start by {
            if j < n - 1 {
                assert(items[j] == init[j]);
            }
        }
        assert forall|j: int| 0 <= j < n implies max_end(items) >= #[trigger] items[j].range.end by {
            if j < n - 1 {
                assert(items[j] == init[j]);
            }
        }
    }
}

proof fn lemma_insert_position(acc: Seq<SuggestionView>, x: SuggestionView)
    ensures
        0 <= insert_position(acc, x) <= acc.len(),
        forall|j: int|
            0 <= j < insert_position(acc, x) ==> lex_cmp(sort_key(#[trigger] acc[j]), sort_key(x))
                != Ordering::Greater,
        insert_position(acc, x) < acc.len() ==> lex_cmp(
            sort_key(acc[insert_position(acc, x)]),
            sort_key(x),
        ) == Ordering::Greater,
    decreases acc.len(),
{
    if acc.len() > 0 && lex_cmp(sort_key(acc[0]), sort_key(x)) != Ordering::Greater {
        let tail = acc.drop_first();
        lemma_insert_position(tail, x);
        assert forall|j: int| 0 <= j < insert_position(acc, x) implies lex_cmp(
            sort_key(#[trigger] acc[j]),
            sort_key(x),
        ) != Ordering::Greater by {
            if j > 0 {
                assert(acc[j] == tail[j - 1]);
            }
        }
    }
}

proof fn lemma_insert_unique(acc: Seq<SuggestionView>, x: SuggestionView)
    requires
        no_duplicates(acc),
        sorted_by_key(acc),
    ensures
        no_duplicates(insert_unique(acc, x)),
        sorted_by_key(insert_unique(acc, x)),
        forall|y: SuggestionView| #[trigger]
            insert_unique(acc, x).contains(y) <==> (acc.contains(y) || y == x),
{
    if !acc.contains(x) {
        let p = insert_position(acc, x);
        lemma_insert_position(acc, x);
        let t = acc.insert(p, x);
        assert forall|i: int, j: int| 0 <= i < j < t.len() implies t[i] != t[j] by {
            if i != p && j != p {
                let ii = if i < p { i } else { i - 1 };
                let jj = if j < p { j } else { j - 1 };
                assert(t[i] == acc[ii] && t[j] == acc[jj]);
            } else if i == p {
                assert(t[j] == acc[j - 1]);
            } else {
                assert(t[i] == acc[i]);
            }
        }
        assert forall|i: int, j: int| 0 <= i < j < t.len() implies lex_cmp(
            sort_key(t[i]),
            sort_key(t[j]),
        ) != Ordering::Greater by {
            if j < p {
            } else if j == p {
                assert(t[i] == acc[i]);
            } else if i < p {
                assert(t[i] == acc[i] && t[j] == acc[j - 1]);
            } else if i == p {
                assert(t[j] == acc[j - 1]);
                lemma_lex_antisym(sort_key(acc[p]), sort_key(x));
                if j - 1 > p {
                    lemma_lex_trans(sort_key(x), sort_key(acc[p]), sort_key(acc[j - 1]));
                }
            } else {
                assert(t[i] == acc[i - 1] && t[j] == acc[j - 1]);
            }
        }
        assert forall|y: SuggestionView| #[trigger] t.contains(y) <==> (acc.contains(y) || y == x) by {
            if t.contains(y) {
                let k = choose|k: int| 0 <= k < t.len() && t[k] == y;
                if k < p {
                    assert(acc[k] == y);
                } else if k > p {
                    assert(acc[k - 1] == y);
                }
            }
            if acc.contains(y) {
                let k = choose|k: int| 0 <= k < acc.len() && acc[k] == y;
                if k < p {
                    assert(t[k] == y);
                } else {
                    assert(t[k + 1] == y);
                }
            }
            if y == x {
                assert(t[p] == y);
            }
        }
    }
}

/// Inserting keeps a list free of repeats and sorted, and it ends up holding
/// exactly what it held and what was inserted.
pub proof fn lemma_insert_all(acc: Seq<SuggestionView>, items: Seq<SuggestionView>)
    requires
        no_duplicates(acc),
        sorted_by_key(acc),
    ensures
        no_duplicates(insert_all(acc, items)),
        sorted_by_key(insert_all(acc, items)),
        forall|y: SuggestionView| #[trigger]
            insert_all(acc, items).contains(y) <==> (acc.contains(y) || items.contains(y)),
    decreases items.len(),
{
    if items.len() > 0 {
        let next = insert_unique(acc, items[0]);
        lemma_insert_unique(acc, items[0]);
        lemma_insert_all(next, items.drop_first());
        assert forall|y: SuggestionView| #[trigger]
            insert_all(acc, items).contains(y) <==> (acc.contains(y) || items.contains(y)) by {
            if items.drop_first().contains(y) {
                let k = choose|k: int| 0 <= k < items.drop_first().len() && items.drop_first()[k] == y;
                assert(items[k + 1] == y);
            }
            if items.contains(y) && y != items[0] {
                let k = choose|k: int| 0 <= k < items.len() && items[k] == y;
                assert(items.drop_first()[k - 1] == y);
            }
            if y == items[0] {
                assert(items.contains(y));
            }
        }
    }
}

/// A sorted list without repeats comes out of `insert_all` unchanged.
proof fn lemma_insert_all_sorted(s: Seq<SuggestionView>, k: int)
    requires
        sorted_by_key(s),
        no_duplicates(s),
        0 <= k <= s.len(),
    ensures
        insert_all(s.take(k), s.skip(k)) == s,
    decreases s.len() - k,
{
    if k == s.len() {
        assert(s.take(k) =~= s);
        assert(s.skip(k).len() == 0);
    } else {
        let acc = s.take(k);
        let x = s[k];
        lemma_insert_position(acc, x);
        assert(!acc.contains(x)) by {
            if acc.contains(x) {
                let j = choose|j: int| 0 <= j < acc.len() && acc[j] == x;
                assert(s[j] == s[k]);
            }
        }
        if insert_position(acc, x) < k {
            assert(acc[insert_position(acc, x)] == s[insert_position(acc, x)]);
        }
        assert(acc.insert(k, x) =~= s.take(k + 1));
        assert(s.skip(k)[0] == x);
        assert(s.skip(k).drop_first() =~= s.skip(k + 1));
        lemma_insert_all_sorted(s, k + 1);
    }
}

/// Items that share one range.
pub open spec fn all_in_range(items: Seq<SuggestionView>, r: StringRange) -> bool {
    forall|i: int| 0 <= i < items.len() ==> (#[trigger] items[i]).range == r
}

proof fn lemma_common_range(items: Seq<SuggestionView>, r: StringRange)
    requires
        items.len() > 0,
        all_in_range(items, r),
    ensures
        encompassing_range(items) == r,
{
    lemma_range_bounds(items);
}

/// `create` yields items without repeats, sorted by lowercased text, that
/// are exactly the given items widened to the common range.
pub proof fn lemma_create_sorted_unique(command: Seq<char>, items: Seq<SuggestionView>)
    ensures
        no_duplicates(create_view(command, items).items),
        sorted_by_key(create_view(command, items).items),
        items.len() > 0 ==> forall|y: SuggestionView| #[trigger]
            create_view(command, items).items.contains(y) <==> expand_all(
                command,
                items,
                encompassing_range(items),
            ).contains(y),
{
    if items.len() > 0 {
        lemma_insert_all(seq![], expand_all(command, items, encompassing_range(items)));
    }
}

/// `create` applied to its own result gives that result again.
pub proof fn lemma_create_idempotent(command: Seq<char>, items: Seq<SuggestionView>)
    ensures
        create_view(command, create_view(command, items).items) == create_view(command, items),
{
    if items.len() > 0 {
        let r = encompassing_range(items);
        let ex = expand_all(command, items, r);
        let out = create_view(command, items).items;
        lemma_insert_all(seq![], ex);
        assert(ex.contains(ex[0]));
        assert(out.contains(ex[0]));
        assert(all_in_range(out, r)) by {
            assert forall|i: int| 0 <= i < out.len() implies (#[trigger] out[i]).range == r by {
                assert(out.contains(out[i]));
                let k = choose|k: int| 0 <= k < ex.len() && ex[k] == out[i];
            }
        }
        lemma_common_range(out, r);
        assert(expand_all(command, out, r) =~= out);
        lemma_insert_all_sorted(out, 0);
        assert(out.take(0) =~= Seq::<SuggestionView>::empty());
        assert(out.skip(0) =~= out);
    }
}


/// Suggestions that share one range, in the order they are offered.
#[derive(Debug, Clone, PartialEq, Eq)]
pub struct Suggestions {
    range: StringRange,
    suggestions: Vec<Suggestion>,
}

impl View for Suggestions {
    type V = SuggestionsView;

    closed spec fn view(&self) -> SuggestionsView {
        SuggestionsView { range: self.range, items: views(self.suggestions@) }
    }
}

/// Puts `s` in its sorted place unless an equal suggestion is there.
fn insert_sorted(sorted: &mut Vec<Suggestion>, s: Suggestion)
    ensures
        views(final(sorted)@) == insert_unique(views(old(sorted)@), s@),
{
    let ghost v = views(sorted@);
    let mut i: usize = 0;
    while i < sorted.len()
        invariant
            i <= sorted@.len(),
            v == views(sorted@),
            *sorted == *old(sorted),
            forall|j: int| 0 <= j < i ==> v[j] != s@,
        decreases sorted@.len() - i,
    {
        if sorted[i].same_as(&s) {
            proof {
                assert(v[i as int] == s@);
            }
            return;
        }
        i = i + 1;
    }
    proof {
        assert(!v.contains(s@));
        assert(v.skip(0) =~= v);
    }
    let mut p: usize = 0;
    loop
        invariant
            p <= sorted@.len(),
            v == views(sorted@),
            *sorted == *old(sorted),
            insert_position(v, s@) == p + insert_position(v.skip(p as int), s@),
        ensures
            p <= sorted@.len(),
            v == views(sorted@),
            *sorted == *old(sorted),
            insert_position(v, s@) == p,
        decreases sorted@.len() - p,
    {
        if p == sorted.len() {
            proof {
                assert(v.skip(p as int).len() == 0);
            }
            break;
        }
        let ghost rest = v.skip(p as int);
        proof {
            assert(rest[0] == v[p as int]);
            assert(rest.drop_first() =~= v.skip(p + 1));
        }
        match sorted[p].cmp_ignore_case(&s) {
            Ordering::Greater => {
                proof {
                    assert(insert_position(rest, s@) == 0);
                }
                break;
            },
            _ => {
                p = p + 1;
            },
        }
    }
    let ghost sv = s@;
    sorted.insert(p, s);
    proof {
        assert(views(sorted@) =~= v.insert(p as int, sv));
    }
}

impl Suggestions {
    pub fn new(range: StringRange, suggestions: Vec<Suggestion>) -> (r: Self)
        ensures
            r@.range == range,
            r@.items == views(suggestions@),
    {
        Suggestions { range, suggestions }
    }

    /// No suggestions, at the empty range at 0.
    pub fn empty() -> (r: Self)
        ensures
            r@ == create_view(seq![], seq![]),
    {
        let r = Suggestions { range: StringRange { start: 0, end: 0 }, suggestions: Vec::new() };
        proof {
            assert(views(r.suggestions@) =~= Seq::<SuggestionView>::empty());
        }
        r
    }

    pub fn range(&self) -> (r: StringRange)
        ensures
            r == self@.range,
    {
        self.range
    }

    pub fn list(&self) -> (r: &Vec<Suggestion>)
        ensures
            views(r@) == self@.items,
    {
        &self.suggestions
    }

    /// Widens every suggestion to the range that encompasses them all, drops
    /// repeats and sorts by lowercased text (see `create_view`).
    pub fn create(command: &str, suggestions: Vec<Suggestion>) -> (r: Self)
        requires
            forall|i: int| 0 <= i < suggestions@.len() ==> range_in(#[trigger] suggestions@[i]@.range, command@),
        ensures
            r@ == create_view(command@, views(suggestions@)),
    {
        let ghost items = views(suggestions@);
        if suggestions.len() == 0 {
            let r = Suggestions::empty();
            return r;
        }
        let mut start: usize = usize::MAX;
        let mut end: usize = 0;
        let mut i: usize = 0;
        while i < suggestions.len()
            invariant
                i <= suggestions@.len(),
                items == views(suggestions@),
                start == min_start(items.take(i as int)),
                end == max_end(items.take(i as int)),
            decreases suggestions@.len() - i,
        {
            let r = suggestions[i].range();
            proof {
                assert(items.take(i + 1).drop_last() =~= items.take(i as int));
                assert(items.take(i + 1).last() == suggestions@[i as int]@);
            }
            if r.start < start {
                start = r.start;
            }
            if r.end > end {
                end = r.end;
            }
            i = i + 1;
        }
        let range = StringRange { start, end };
        proof {
            assert(items.take(items.len() as int) =~= items);
            lemma_range_bounds(items);
            let j1 = choose|j: int| 0 <= j < items.len() && min_start(items) == items[j].range.start;
            let j2 = choose|j: int| 0 <= j < items.len() && max_end(items) == items[j].range.end;
            assert(range_in(suggestions@[j1]@.range, command@));
            assert(range_in(suggestions@[j2]@.range, command@));
            assert(range_in(suggestions@[0]@.range, command@));
            assert(items[0] == suggestions@[0]@);
        }
        let ghost ex = expand_all(command@, items, range);
        let mut sorted: Vec<Suggestion> = Vec::new();
        let mut k: usize = 0;
        proof {
            assert(views(sorted@) =~= Seq::<SuggestionView>::empty());
            assert(ex.skip(0) =~= ex);
        }
        while k < suggestions.len()
            invariant
                k <= suggestions@.len(),
                items == views(suggestions@),
                range_in(range, command@),
                range == encompassing_range(items),
                ex == expand_all(command@, items, range),
                forall|i: int| 0 <= i < suggestions@.len() ==> range_in(#[trigger] suggestions@[i]@.range, command@),
                insert_all(seq![], ex) == insert_all(views(sorted@), ex.skip(k as int)),
            decreases suggestions@.len() - k,
        {
            let e = suggestions[k].expand(command, range);
            proof {
                assert(ex.skip(k as int)[0] == e@);
                assert(ex.skip(k as int).drop_first() =~= ex.skip(k + 1));
            }
            insert_sorted(&mut sorted, e);
            k = k + 1;
        }
        proof {
            assert(ex.skip(k as int).len() == 0);
        }
        Suggestions { range, suggestions: sorted }
    }

    pub fn is_empty(&self) -> (r: bool)
        ensures
            r == (self@.items.len() == 0),
    {
        self.suggestions.len() == 0
    }
}


/// Collects suggestions for the input from byte offset `start` to its end.
pub struct SuggestionsBuilder<'i> {
    start: usize,
    input: &'i str,
    input_lower_case: &'i str,
    remaining: &'i str,
    remaining_lower_case: &'i str,
    result: Vec<Suggestion>,
}

impl<'i> SuggestionsBuilder<'i> {
    pub closed spec fn spec_input(&self) -> Seq<char> {
        self.input@
    }

    pub closed spec fn spec_input_lower_case(&self) -> Seq<char> {
        self.input_lower_case@
    }

    pub closed spec fn spec_start(&self) -> usize {
        self.start
    }

    /// The suggestions collected so far.
    pub closed spec fn spec_result(&self) -> Seq<SuggestionView> {
        views(self.result@)
    }

    pub closed spec fn spec_remaining(&self) -> Seq<char> {
        self.remaining@
    }

    pub closed spec fn spec_remaining_lower_case(&self) -> Seq<char> {
        self.remaining_lower_case@
    }

    /// The range every new suggestion gets: from `start` to the end.
    pub open spec fn spec_range(&self) -> StringRange {
        StringRange { start: self.spec_start(), end: byte_len(self.spec_input()) as usize }
    }

    pub open spec fn wf(&self) -> bool {
        &&& range_in(self.spec_range(), self.spec_input())
        &&& self.spec_start() <= byte_len(self.spec_input_lower_case())
        &&& is_boundary(self.spec_input_lower_case(), self.spec_start() as int)
        &&& self.spec_remaining() == byte_slice(
            self.spec_input(),
            self.spec_start() as int,
            byte_len(self.spec_input()) as int,
        )
        &&& self.spec_remaining_lower_case() == byte_slice(
            self.spec_input_lower_case(),
            self.spec_start() as int,
            byte_len(self.spec_input_lower_case()) as int,
        )
    }

    /// Every collected suggestion lies within the input, as `build` needs.
    pub open spec fn results_in_input(&self) -> bool {
        forall|i: int|
            0 <= i < self.spec_result().len() ==> range_in(
                (#[trigger] self.spec_result()[i]).range,
                self.spec_input(),
            )
    }

    /// A builder for `input` from byte offset `start`; `input_lower_case` is
    /// its lowercased form, cut at the same offset.
    pub fn new(input: &'i str, input_lower_case: &'i str, start: usize) -> (r: Self)
        requires
            start <= byte_len(input@),
            is_boundary(input@, start as int),
            start <= byte_len(input_lower_case@),
            is_boundary(input_lower_case@, start as int),
        ensures
            r.wf(),
            r.spec_input() == input@,
            r.spec_input_lower_case() == input_lower_case@,
            r.spec_start() == start,
            r.spec_result().len() == 0,
            r.results_in_input(),
    {
        let n = byte_length(input);
        let m = byte_length(input_lower_case);
        proof {
            vstd::utf8::is_char_boundary_start_end_of_seq(vstd::utf8::encode_utf8(input@));
            vstd::utf8::is_char_boundary_start_end_of_seq(
                vstd::utf8::encode_utf8(input_lower_case@),
            );
        }
        let r = SuggestionsBuilder {
            start,
            input,
            input_lower_case,
            remaining: str_slice(input, start, n),
            remaining_lower_case: str_slice(input_lower_case, start, m),
            result: Vec::new(),
        };
        proof {
            assert(views(r.result@) =~= Seq::<SuggestionView>::empty());
        }
        r
    }

    #[inline]
    pub fn input(&self) -> (r: &'i str)
        ensures
            r@ == self.spec_input(),
    {
        self.input
    }

    #[inline]
    pub fn start(&self) -> (r: usize)
        ensures
            r == self.spec_start(),
    {
        self.start
    }

    pub fn remaining(&self) -> (r: &'i str)
        ensures
            r@ == self.spec_remaining(),
    {
        self.remaining
    }

    #[inline]
    pub fn remaining_lower_case(&self) -> (r: &'i str)
        ensures
            r@ == self.spec_remaining_lower_case(),
    {
        self.remaining_lower_case
    }

    fn push(&mut self, s: Suggestion)
        requires
            old(self).wf(),
        ensures
            final(self).wf(),
            final(self).spec_input() == old(self).spec_input(),
            final(self).spec_input_lower_case() == old(self).spec_input_lower_case(),
            final(self).spec_start() == old(self).spec_start(),
            final(self).spec_result() == old(self).spec_result().push(s@),
            final(self).results_in_input() <==> (old(self).results_in_input() && range_in(
                s@.range,
                old(self).spec_input(),
            )),
    {
        let ghost sv = s@;
        self.result.push(s);
        proof {
            assert(views(self.result@) =~= views(old(self).result@).push(sv));
            if old(self).results_in_input() && range_in(sv.range, old(self).spec_input()) {
                assert forall|i: int| 0 <= i < self.spec_result().len() implies range_in(
                    (#[trigger] self.spec_result()[i]).range,
                    self.spec_input(),
                ) by {
                    if i < old(self).spec_result().len() {
                        assert(self.spec_result()[i] == old(self).spec_result()[i]);
                    }
                }
            }
            if self.results_in_input() {
                assert forall|i: int| 0 <= i < old(self).spec_result().len() implies range_in(
                    (#[trigger] old(self).spec_result()[i]).range,
                    old(self).spec_input(),
                ) by {
                    assert(self.spec_result()[i] == old(self).spec_result()[i]);
                }
                assert(self.spec_result()[old(self).spec_result().len() as int] == sv);
            }
        }
    }

    /// The collected suggestions, merged by `Suggestions::create`.
    pub fn build(self) -> (r: Suggestions)
        requires
            self.wf(),
            self.results_in_input(),
        ensures
            r@ == create_view(self.spec_input(), self.spec_result()),
    {
        proof {
            assert forall|i: int| 0 <= i < self.result@.len() implies range_in(
                #[trigger] self.result@[i]@.range,
                self.input@,
            ) by {
                assert(self.spec_result()[i] == self.result@[i]@);
            }
        }
        Suggestions::create(self.input, self.result)
    }

    /// Suggests `text` for the rest of the input, unless it is that rest.
    pub fn suggest_text(&mut self, text: &str)
        requires
            old(self).wf(),
        ensures
            final(self).wf(),
            final(self).spec_input() == old(self).spec_input(),
            final(self).spec_input_lower_case() == old(self).spec_input_lower_case(),
            final(self).spec_start() == old(self).spec_start(),
            old(self).results_in_input() ==> final(self).results_in_input(),
            final(self).spec_result() == if text@ == old(self).spec_remaining() {
                old(self).spec_result()
            } else {
                old(self).spec_result().push(
                    SuggestionView {
                        range: old(self).spec_range(),
                        text: text@,
                        int_value: None,
                        tooltip: None,
                    },
                )
            },
    {
        proof {
            lemma_lex_equal(text@, self.remaining@);
        }
        if let Ordering::Equal = compare_str(text, self.remaining) {
            return;
        }
        let range = StringRange { start: self.start, end: byte_length(self.input) };
        self.push(Suggestion::new_text(range, text));
    }

    /// Like `suggest_text`, with a tooltip.
    pub fn suggest_text_with_tooltip(&mut self, text: &str, tooltip: &str)
        requires
            old(self).wf(),
        ensures
            final(self).wf(),
            final(self).spec_input() == old(self).spec_input(),
            final(self).spec_input_lower_case() == old(self).spec_input_lower_case(),
            final(self).spec_start() == old(self).spec_start(),
            old(self).results_in_input() ==> final(self).results_in_input(),
            final(self).spec_result() == if text@ == old(self).spec_remaining() {
                old(self).spec_result()
            } else {
                old(self).spec_result().push(
                    SuggestionView {
                        range: old(self).spec_range(),
                        text: text@,
                        int_value: None,
                        tooltip: Some(tooltip@),
                    },
                )
            },
    {
        proof {
            lemma_lex_equal(text@, self.remaining@);
        }
        if let Ordering::Equal = compare_str(text, self.remaining) {
            return;
        }
        let range = StringRange { start: self.start, end: byte_length(self.input) };
        self.push(Suggestion::new_text_with_tooltip(range, text, tooltip));
    }

    /// Suggests an integer for the rest of the input.
    pub fn suggest_int(&mut self, value: i32)
        requires
            old(self).wf(),
        ensures
            final(self).wf(),
            final(self).spec_input() == old(self).spec_input(),
            final(self).spec_input_lower_case() == old(self).spec_input_lower_case(),
            final(self).spec_start() == old(self).spec_start(),
            old(self).results_in_input() ==> final(self).results_in_input(),
            final(self).spec_result() == old(self).spec_result().push(
                SuggestionView {
                    range: old(self).spec_range(),
                    text: int_text(value as int),
                    int_value: Some(value),
                    tooltip: None,
                },
            ),
    {
        let range = StringRange { start: self.start, end: byte_length(self.input) };
        self.push(Suggestion::new_int(range, value));
    }

    /// Like `suggest_int`, with a tooltip.
    pub fn suggest_int_with_tooltip(&mut self, value: i32, tooltip: &str)
        requires
            old(self).wf(),
        ensures
            final(self).wf(),
            final(self).spec_input() == old(self).spec_input(),
            final(self).spec_input_lower_case() == old(self).spec_input_lower_case(),
            final(self).spec_start() == old(self).spec_start(),
            old(self).results_in_input() ==> final(self).results_in_input(),
            final(self).spec_result() == old(self).spec_result().push(
                SuggestionView {
                    range: old(self).spec_range(),
                    text: int_text(value as int),
                    int_value: Some(value),
                    tooltip: Some(tooltip@),
                },
            ),
    {
        let range = StringRange { start: self.start, end: byte_length(self.input) };
        self.push(Suggestion::new_int_with_tooltip(range, value, tooltip));
    }

    /// This builder with the suggestions of `other` appended.
    pub fn add(self, other: &Self) -> (r: Self)
        requires
            self.wf(),
        ensures
            r.wf(),
            r.spec_input() == self.spec_input(),
            r.spec_input_lower_case() == self.spec_input_lower_case(),
            r.spec_start() == self.spec_start(),
            r.spec_result() == self.spec_result() + other.spec_result(),
            r.results_in_input() <==> (self.results_in_input() && forall|i: int|
                0 <= i < other.spec_result().len() ==> range_in(
                    (#[trigger] other.spec_result()[i]).range,
                    self.spec_input(),
                )),
    {
        let mut this = self;
        let ghost first = this.spec_result();
        let ghost inp = this.spec_input();
        let ghost low = this.spec_input_lower_case();
        let ghost st = this.spec_start();
        let mut i: usize = 0;
        while i < other.result.len()
            invariant
                i <= other.result@.len(),
                this.wf(),
                this.spec_input() == inp,
                this.spec_input_lower_case() == low,
                this.spec_start() == st,
                this.spec_result() == first + other.spec_result().take(i as int),
                first == self.spec_result(),
                inp == self.spec_input(),
            decreases other.result@.len() - i,
        {
            let s = other.result[i].duplicate();
            proof {
                assert(other.spec_result()[i as int] == other.result@[i as int]@);
                assert(other.spec_result().take(i + 1) =~= other.spec_result().take(i as int).push(
                    s@,
                ));
            }
            this.push(s);
            i = i + 1;
        }
        proof {
            assert(other.spec_result().take(i as int) =~= other.spec_result());
            let a = self.spec_result();
            let b = other.spec_result();
            let c = this.spec_result();
            assert(c == a + b);
            if this.results_in_input() {
                assert forall|i: int| 0 <= i < a.len() implies range_in(
                    (#[trigger] a[i]).range,
                    self.spec_input(),
                ) by {
                    assert(c[i] == a[i]);
                }
                assert forall|i: int| 0 <= i < b.len() implies range_in(
                    (#[trigger] b[i]).range,
                    self.spec_input(),
                ) by {
                    assert(c[a.len() + i] == b[i]);
                }
            }
            if self.results_in_input() && (forall|i: int|
                0 <= i < b.len() ==> range_in((#[trigger] b[i]).range, self.spec_input())) {
                assert forall|i: int| 0 <= i < c.len() implies range_in(
                    (#[trigger] c[i]).range,
                    this.spec_input(),
                ) by {
                    if i < a.len() {
                        assert(c[i] == a[i]);
                    } else {
                        assert(c[i] == b[i - a.len()]);
                    }
                }
            }
        }
        this
    }

    /// A new, empty builder on the same input from byte offset `start`.
    pub fn create_offset(&self, start: usize) -> (r: Self)
        requires
            start <= byte_len(self.spec_input()),
            is_boundary(self.spec_input(), start as int),
            start <= byte_len(self.spec_input_lower_case()),
            is_boundary(self.spec_input_lower_case(), start as int),
        ensures
            r.wf(),
            r.spec_input() == self.spec_input(),
            r.spec_input_lower_case() == self.spec_input_lower_case(),
            r.spec_start() == start,
            r.spec_result().len() == 0,
            r.results_in_input(),
    {
        Self::new(self.input, self.input_lower_case, start)
    }

    /// A new, empty builder on the same input from the same offset.
    pub fn restart(&self) -> (r: Self)
        requires
            self.wf(),
        ensures
            r.wf(),
            r.spec_input() == self.spec_input(),
            r.spec_input_lower_case() == self.spec_input_lower_case(),
            r.spec_start() == self.spec_start(),
            r.spec_result().len() == 0,
            r.results_in_input(),
    {
        self.create_offset(self.start)
    }
}

/// Applying a suggestion whose text is already in its range changes nothing.
pub proof fn lemma_apply_round_trip(s: SuggestionView, command: Seq<char>)
    requires
        range_in(s.range, command),
        s.text == byte_slice(command, s.range.start as int, s.range.end as int),
    ensures
        apply_view(s, command) == command,
{
    let a = s.range.start as int;
    let b = s.range.end as int;
    let bytes = vstd::utf8::encode_utf8(command);
    let n = bytes.len() as int;
    lemma_split_chars(command, a);
    let rest = byte_slice(command, a, n);
    vstd::utf8::valid_utf8_split(bytes, a);
    let tail = bytes.subrange(a, n);
    if b < n {
        vstd::utf8::is_char_boundary_iff_not_is_continuation_byte(bytes, b);
        vstd::utf8::is_char_boundary_iff_not_is_continuation_byte(tail, b - a);
    } else {
        vstd::utf8::is_char_boundary_start_end_of_seq(tail);
    }
    vstd::utf8::decode_utf8_split(tail, b - a);
    assert(tail.subrange(0, b - a) =~= bytes.subrange(a, b));
    assert(tail.subrange(b - a, tail.len() as int) =~= bytes.subrange(b, n));
    assert(byte_slice(command, a, b) + byte_slice(command, b, n) == rest);
    assert(apply_view(s, command) =~= byte_slice(command, 0, a) + rest);
}

} // verus!
