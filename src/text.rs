use vstd::prelude::*;

verus! {

/// Unicode lower-case mapping of a whole string, as `str::to_lowercase` computes it.
pub uninterp spec fn lower_of(s: Seq<char>) -> Seq<char>;

/// Unicode `Alphabetic` or `Numeric` property of a character, as `char::is_alphanumeric` reads it.
pub uninterp spec fn alnum_of(c: char) -> bool;

/// Relies on `str::to_lowercase`: the lower-case form depends on the characters alone,
/// and the empty string stays empty.
#[verifier::external_body]
pub(crate) fn to_lower(s: &str) -> (r: String)
    ensures
        r@ == lower_of(s@),
        s@.len() == 0 ==> r@.len() == 0,
{
    s.to_lowercase()
}

/// Relies on `char::is_alphanumeric`.
#[verifier::external_body]
pub(crate) fn is_alnum(c: char) -> (r: bool)
    ensures
        r == alnum_of(c),
{
    c.is_alphanumeric()
}

/// Relies on `str::chars`, collected: the characters of the string, in order; a vector
/// never holds more than `isize::MAX` bytes.
#[verifier::external_body]
pub(crate) fn chars_of(s: &str) -> (r: Vec<char>)
    ensures
        r@ == s@,
        r@.len() <= isize::MAX,
{
    s.chars().collect()
}

/// Relies on `String: FromIterator<&char>`: the string made of these characters, in order.
#[verifier::external_body]
pub(crate) fn string_of(v: &Vec<char>) -> (r: String)
    ensures
        r@ == v@,
{
    v.iter().collect()
}

/// The Unicode `White_Space` characters, which `char::is_whitespace` recognises.
pub open spec fn space_char(c: char) -> bool {
    ('\u{9}' <= c && c <= '\u{d}') || c == ' ' || c == '\u{85}' || c == '\u{a0}'
        || c == '\u{1680}' || ('\u{2000}' <= c && c <= '\u{200a}') || c == '\u{2028}'
        || c == '\u{2029}' || c == '\u{202f}' || c == '\u{205f}' || c == '\u{3000}'
}

pub fn is_space(c: char) -> (r: bool)
    ensures
        r == space_char(c),
{
    ('\u{9}' <= c && c <= '\u{d}') || c == ' ' || c == '\u{85}' || c == '\u{a0}'
        || c == '\u{1680}' || ('\u{2000}' <= c && c <= '\u{200a}') || c == '\u{2028}'
        || c == '\u{2029}' || c == '\u{202f}' || c == '\u{205f}' || c == '\u{3000}'
}

/// The spans `[start, end)` of the maximal runs of non-space characters of `s`
/// from index `i` on, where `start` is the start of a run already open at `i`.
pub open spec fn spans_from(s: Seq<char>, i: int, start: Option<int>) -> Seq<(int, int)>
    decreases s.len() - i,
{
    if i >= s.len() {
        match start {
            Some(a) => seq![(a, s.len() as int)],
            None => seq![],
        }
    } else if space_char(s[i]) {
        match start {
            Some(a) => seq![(a, i)] + spans_from(s, i + 1, None),
            None => spans_from(s, i + 1, None),
        }
    } else {
        match start {
            Some(a) => spans_from(s, i + 1, Some(a)),
            None => spans_from(s, i + 1, Some(i)),
        }
    }
}

/// The spans of the whitespace-separated words of `s`, in order.
pub open spec fn word_spans(s: Seq<char>) -> Seq<(int, int)> {
    spans_from(s, 0, None)
}

/// The whitespace-separated words of `s`, in order.
pub open spec fn words(s: Seq<char>) -> Seq<Seq<char>> {
    word_spans(s).map_values(|p: (int, int)| s.subrange(p.0, p.1))
}

pub open spec fn spans_view(v: Seq<(usize, usize)>) -> Seq<(int, int)> {
    v.map_values(|p: (usize, usize)| (p.0 as int, p.1 as int))
}

/// Every span of `spans_from(s, i, start)` lies in `[lo, |s|]`, is non-empty and ordered.
proof fn lemma_spans_from_bounds(s: Seq<char>, i: int, start: Option<int>, lo: int)
    requires
        0 <= lo <= i <= s.len(),
        start matches Some(a) ==> lo <= a < i,
    ensures
        forall|k: int|
            0 <= k < spans_from(s, i, start).len() ==> lo <= #[trigger] spans_from(s, i, start)[k].0
                < spans_from(s, i, start)[k].1 <= s.len(),
        forall|k: int, m: int|
            0 <= k < m < spans_from(s, i, start).len() ==> #[trigger] spans_from(s, i, start)[k].1
                < #[trigger] spans_from(s, i, start)[m].0,
    decreases s.len() - i,
{
    let all = spans_from(s, i, start);
    if i >= s.len() {
        match start {
            Some(a) => {
                assert(all == seq![(a, s.len() as int)]);
            },
            None => {
                assert(all.len() == 0);
            },
        }
    } else if space_char(s[i]) {
        match start {
            Some(a) => {
                lemma_spans_from_bounds(s, i + 1, None, i + 1);
                let rest = spans_from(s, i + 1, None);
                assert(all == seq![(a, i)] + rest);
                assert forall|k: int| 0 <= k < all.len() implies lo <= #[trigger] all[k].0 < all[k].1
                    <= s.len() by {
                    if k > 0 {
                        assert(all[k] == rest[k - 1]);
                    }
                }
                assert forall|k: int, m: int| 0 <= k < m < all.len() implies #[trigger] all[k].1
                    < #[trigger] all[m].0 by {
                    assert(all[m] == rest[m - 1]);
                    if k > 0 {
                        assert(all[k] == rest[k - 1]);
                    }
                }
            },
            None => {
                lemma_spans_from_bounds(s, i + 1, None, lo);
                assert(all == spans_from(s, i + 1, None));
            },
        }
    } else {
        match start {
            Some(a) => {
                lemma_spans_from_bounds(s, i + 1, Some(a), lo);
                assert(all == spans_from(s, i + 1, Some(a)));
            },
            None => {
                lemma_spans_from_bounds(s, i + 1, Some(i), lo);
                assert(all == spans_from(s, i + 1, Some(i)));
            },
        }
    }
}

/// Every span of `word_spans(s)` is a non-empty range inside `s`, and the spans are ordered
/// and apart.
pub proof fn lemma_word_spans_bounds(s: Seq<char>)
    ensures
        forall|k: int|
            0 <= k < word_spans(s).len() ==> 0 <= #[trigger] word_spans(s)[k].0 < word_spans(s)[k].1
                <= s.len(),
        forall|k: int, m: int|
            0 <= k < m < word_spans(s).len() ==> #[trigger] word_spans(s)[k].1
                < #[trigger] word_spans(s)[m].0,
{
    lemma_spans_from_bounds(s, 0, None, 0);
}

/// There are no more words than characters.
pub proof fn lemma_word_spans_count(s: Seq<char>)
    ensures
        word_spans(s).len() <= s.len(),
{
    lemma_word_spans_bounds(s);
    let sv = word_spans(s);
    assert forall|k: int| 0 <= k < sv.len() implies #[trigger] sv[k].0 >= k by {
        lemma_span_start_at_least(sv, k);
    }
    if sv.len() > 0 {
        assert(sv[sv.len() - 1].0 >= sv.len() - 1);
    }
}

proof fn lemma_span_start_at_least(sv: Seq<(int, int)>, k: int)
    requires
        0 <= k < sv.len(),
        forall|j: int| 0 <= j < sv.len() ==> 0 <= #[trigger] sv[j].0 < sv[j].1,
        forall|j: int, m: int| 0 <= j < m < sv.len() ==> #[trigger] sv[j].1 < #[trigger] sv[m].0,
    ensures
        sv[k].0 >= k,
    decreases k,
{
    if k > 0 {
        lemma_span_start_at_least(sv, k - 1);
        assert(sv[k - 1].1 < sv[k].0);
    }
}

/// The spans of the whitespace-separated words of `s`.
pub fn split_word_spans(s: &Vec<char>) -> (r: Vec<(usize, usize)>)
    ensures
        spans_view(r@) == word_spans(s@),
{
    let mut out: Vec<(usize, usize)> = Vec::new();
    let mut start: Option<usize> = None;
    let mut i: usize = 0;
    while i < s.len()
        invariant
            i <= s.len(),
            start matches Some(a) ==> a < i,
            spans_view(out@) + spans_from(
                s@,
                i as int,
                match start {
                    Some(a) => Some(a as int),
                    None => None,
                },
            ) == word_spans(s@),
        decreases s.len() - i,
    {
        let c = s[i];
        let ghost gstart = match start {
            Some(a) => Some(a as int),
            None => None::<int>,
        };
        let ghost before = spans_view(out@);
        if is_space(c) {
            match start {
                Some(a) => {
                    out.push((a, i));
                    proof {
                        assert(spans_view(out@) == before.push((a as int, i as int)));
                        assert(spans_from(s@, i as int, gstart) == seq![(a as int, i as int)]
                            + spans_from(s@, i + 1, None));
                        assert(before + (seq![(a as int, i as int)] + spans_from(s@, i + 1, None))
                            == before.push((a as int, i as int)) + spans_from(s@, i + 1, None));
                    }
                },
                None => {},
            }
            start = None;
        } else {
            match start {
                Some(_) => {},
                None => {
                    start = Some(i);
                },
            }
        }
        i = i + 1;
    }
    match start {
        Some(a) => {
            let ghost before = spans_view(out@);
            out.push((a, s.len()));
            proof {
                assert(spans_view(out@) == before.push((a as int, s.len() as int)));
            }
        },
        None => {
            assert(spans_view(out@) + seq![] == spans_view(out@));
        },
    }
    out
}


/// `w` without its leading characters that are not alphanumeric.
pub open spec fn trim_start(w: Seq<char>) -> Seq<char>
    decreases w.len(),
{
    if w.len() > 0 && !alnum_of(w[0]) {
        trim_start(w.drop_first())
    } else {
        w
    }
}

/// `w` without its trailing characters that are not alphanumeric.
pub open spec fn trim_end(w: Seq<char>) -> Seq<char>
    decreases w.len(),
{
    if w.len() > 0 && !alnum_of(w.last()) {
        trim_end(w.drop_last())
    } else {
        w
    }
}

/// `w` stripped of non-alphanumeric characters at both ends.
pub open spec fn trim_word(w: Seq<char>) -> Seq<char> {
    trim_end(trim_start(w))
}

/// The words that carry no weight in a search.
pub open spec fn is_stop_word(w: Seq<char>) -> bool {
    w == "the"@ || w == "and"@ || w == "or"@ || w == "but"@ || w == "in"@ || w == "on"@
        || w == "at"@ || w == "to"@ || w == "for"@ || w == "of"@ || w == "with"@ || w == "by"@
        || w == "a"@ || w == "an"@ || w == "is"@
}

/// Whether a trimmed word becomes a token.
pub open spec fn keeps(w: Seq<char>) -> bool {
    w.len() > 0 && !is_stop_word(w)
}

/// The tokens of a sequence of words: each word trimmed, empty words and stop words dropped.
pub open spec fn tokens_of_words(ws: Seq<Seq<char>>) -> Seq<Seq<char>>
    decreases ws.len(),
{
    if ws.len() == 0 {
        seq![]
    } else {
        let rest = tokens_of_words(ws.drop_last());
        let t = trim_word(ws.last());
        if keeps(t) {
            rest.push(t)
        } else {
            rest
        }
    }
}

/// The search tokens of a text: its lower-case form split at whitespace, each word
/// trimmed of non-alphanumeric ends, empty words and stop words dropped.
pub open spec fn tokens(text: Seq<char>) -> Seq<Seq<char>> {
    tokens_of_words(words(lower_of(text)))
}

pub open spec fn strings_view(v: Seq<String>) -> Seq<Seq<char>> {
    v.map_values(|s: String| s@)
}

/// Whether two character sequences are equal.
pub fn same_chars(a: &Vec<char>, b: &Vec<char>) -> (r: bool)
    ensures
        r == (a@ == b@),
{
    if a.len() != b.len() {
        return false;
    }
    let mut i: usize = 0;
    while i < a.len()
        invariant
            a.len() == b.len(),
            i <= a.len(),
            a@.subrange(0, i as int) =~= b@.subrange(0, i as int),
        decreases a.len() - i,
    {
        if a[i] != b[i] {
            return false;
        }
        proof {
            assert(a@.subrange(0, i + 1) =~= a@.subrange(0, i as int).push(a@[i as int]));
            assert(b@.subrange(0, i + 1) =~= b@.subrange(0, i as int).push(b@[i as int]));
        }
        i = i + 1;
    }
    assert(a@ =~= a@.subrange(0, i as int));
    assert(b@ =~= b@.subrange(0, i as int));
    true
}

/// Whether `w` is one of the stop words.
pub fn is_stop(w: &Vec<char>) -> (r: bool)
    ensures
        r == is_stop_word(w@),
{
    same_chars(w, &chars_of("the")) || same_chars(w, &chars_of("and")) || same_chars(w, &chars_of("or"))
        || same_chars(w, &chars_of("but")) || same_chars(w, &chars_of("in")) || same_chars(
        w,
        &chars_of("on"),
    ) || same_chars(w, &chars_of("at")) || same_chars(w, &chars_of("to")) || same_chars(
        w,
        &chars_of("for"),
    ) || same_chars(w, &chars_of("of")) || same_chars(w, &chars_of("with")) || same_chars(
        w,
        &chars_of("by"),
    ) || same_chars(w, &chars_of("a")) || same_chars(w, &chars_of("an")) || same_chars(
        w,
        &chars_of("is"),
    )
}

/// The characters `s[lo..hi]`.
pub fn sub_chars(s: &Vec<char>, lo: usize, hi: usize) -> (r: Vec<char>)
    requires
        lo <= hi <= s.len(),
    ensures
        r@ == s@.subrange(lo as int, hi as int),
{
    let mut out: Vec<char> = Vec::new();
    let mut i: usize = lo;
    while i < hi
        invariant
            lo <= i <= hi <= s.len(),
            out@ =~= s@.subrange(lo as int, i as int),
        decreases hi - i,
    {
        out.push(s[i]);
        i = i + 1;
    }
    out
}

proof fn lemma_trim_start_step(s: Seq<char>, a: int, hi: int)
    requires
        0 <= a < hi <= s.len(),
        !alnum_of(s[a]),
    ensures
        trim_start(s.subrange(a, hi)) == trim_start(s.subrange(a + 1, hi)),
{
    assert(s.subrange(a, hi).drop_first() =~= s.subrange(a + 1, hi));
}

proof fn lemma_trim_end_step(s: Seq<char>, lo: int, b: int)
    requires
        0 <= lo < b <= s.len(),
        !alnum_of(s[b - 1]),
    ensures
        trim_end(s.subrange(lo, b)) == trim_end(s.subrange(lo, b - 1)),
{
    assert(s.subrange(lo, b).drop_last() =~= s.subrange(lo, b - 1));
}

/// The range of `s[lo..hi]` that remains once non-alphanumeric ends are trimmed.
pub fn trim_range(s: &Vec<char>, lo: usize, hi: usize) -> (r: (usize, usize))
    requires
        lo <= hi <= s.len(),
    ensures
        lo <= r.0 <= r.1 <= hi,
        s@.subrange(r.0 as int, r.1 as int) == trim_word(s@.subrange(lo as int, hi as int)),
{
    let mut a: usize = lo;
    while a < hi && !is_alnum(s[a])
        invariant
            lo <= a <= hi <= s.len(),
            trim_start(s@.subrange(lo as int, hi as int)) == trim_start(s@.subrange(a as int, hi as int)),
        decreases hi - a,
    {
        proof {
            lemma_trim_start_step(s@, a as int, hi as int);
        }
        a = a + 1;
    }
    assert(trim_start(s@.subrange(a as int, hi as int)) == s@.subrange(a as int, hi as int));
    let mut b: usize = hi;
    while b > a && !is_alnum(s[b - 1])
        invariant
            lo <= a <= b <= hi <= s.len(),
            trim_end(s@.subrange(a as int, hi as int)) == trim_end(s@.subrange(a as int, b as int)),
        decreases b - a,
    {
        proof {
            lemma_trim_end_step(s@, a as int, b as int);
        }
        b = b - 1;
    }
    assert(trim_end(s@.subrange(a as int, b as int)) == s@.subrange(a as int, b as int));
    (a, b)
}

/// The search tokens of `text`, in order.
pub fn tokenize(text: &str) -> (r: Vec<String>)
    ensures
        strings_view(r@) == tokens(text@),
{
    let lower = to_lower(text);
    let lc = chars_of(lower.as_str());
    let spans = split_word_spans(&lc);
    proof {
        lemma_word_spans_bounds(lc@);
    }
    let ghost ws = words(lc@);
    let mut out: Vec<String> = Vec::new();
    let mut k: usize = 0;
    while k < spans.len()
        invariant
            k <= spans.len(),
            spans_view(spans@) == word_spans(lc@),
            ws == words(lc@),
            ws.len() == spans.len(),
            forall|j: int|
                0 <= j < word_spans(lc@).len() ==> 0 <= #[trigger] word_spans(lc@)[j].0
                    < word_spans(lc@)[j].1 <= lc@.len(),
            strings_view(out@) == tokens_of_words(ws.subrange(0, k as int)),
        decreases spans.len() - k,
    {
        let (a, b) = spans[k];
        assert(spans_view(spans@)[k as int] == (a as int, b as int));
        assert(ws[k as int] == lc@.subrange(a as int, b as int));
        let (ta, tb) = trim_range(&lc, a, b);
        let piece = sub_chars(&lc, ta, tb);
        let ghost before = strings_view(out@);
        let ghost prefix = ws.subrange(0, k as int);
        proof {
            assert(ws.subrange(0, k + 1).drop_last() =~= prefix);
            assert(ws.subrange(0, k + 1).last() == ws[k as int]);
        }
        if tb > ta && !is_stop(&piece) {
            let t = string_of(&piece);
            out.push(t);
            proof {
                assert(strings_view(out@) =~= before.push(piece@));
            }
        }
        k = k + 1;
    }
    assert(ws.subrange(0, k as int) =~= ws);
    out
}

} // verus!
