use vstd::prelude::*;
use vstd::string::*;
use crate::search::contains_token;
use crate::text::strings_view;

verus! {

/// The words that similarity measures leave out.
pub open spec fn preprocessor_stop_words() -> Seq<Seq<char>> {
    seq!["the"@, "a"@, "an"@, "and"@, "or"@, "but"@, "in"@, "on"@, "at"@, "to"@, "for"@, "of"@, "with"@, "by"@, "is"@, "are"@, "was"@, "were"@, "be"@, "been"@, "being"@, "have"@, "has"@, "had"@, "do"@, "does"@, "did"@, "will"@, "would"@, "could"@, "should"@, "may"@, "might"@, "must"@, "this"@, "that"@, "these"@, "those"@, "i"@, "you"@, "he"@, "she"@, "it"@, "we"@, "they"@]
}

/// The tokens that are not stop words, in order.
pub open spec fn without_stop_words(ts: Seq<Seq<char>>) -> Seq<Seq<char>>
    decreases ts.len(),
{
    if ts.len() == 0 {
        seq![]
    } else if preprocessor_stop_words().contains(ts.last()) {
        without_stop_words(ts.drop_last())
    } else {
        without_stop_words(ts.drop_last()).push(ts.last())
    }
}

/// Words joined with single spaces.
pub open spec fn join_spaced(ws: Seq<Seq<char>>) -> Seq<char>
    decreases ws.len(),
{
    if ws.len() == 0 {
        seq![]
    } else if ws.len() == 1 {
        ws[0]
    } else {
        join_spaced(ws.drop_last()) + seq![' '] + ws.last()
    }
}

/// The `n`-grams of a token list: every run of `n` consecutive tokens, joined with spaces, in
/// order; none when `n` is zero or exceeds the number of tokens.
pub open spec fn ngrams(ts: Seq<Seq<char>>, n: nat) -> Seq<Seq<char>> {
    if n == 0 || ts.len() < n {
        seq![]
    } else {
        Seq::new((ts.len() - n + 1) as nat, |i: int| join_spaced(ts.subrange(i, i + n)))
    }
}

/// Text preparation for similarity measures.
pub struct TextPreprocessor;

fn stop_list() -> (r: Vec<String>)
    ensures
        strings_view(r@) == preprocessor_stop_words(),
{
    let v: Vec<String> = vec![
            String::from_str("the"),
            String::from_str("a"),
            String::from_str("an"),
            String::from_str("and"),
            String::from_str("or"),
            String::from_str("but"),
            String::from_str("in"),
            String::from_str("on"),
            String::from_str("at"),
            String::from_str("to"),
            String::from_str("for"),
            String::from_str("of"),
            String::from_str("with"),
            String::from_str("by"),
            String::from_str("is"),
            String::from_str("are"),
            String::from_str("was"),
            String::from_str("were"),
            String::from_str("be"),
            String::from_str("been"),
            String::from_str("being"),
            String::from_str("have"),
            String::from_str("has"),
            String::from_str("had"),
            String::from_str("do"),
            String::from_str("does"),
            String::from_str("did"),
            String::from_str("will"),
            String::from_str("would"),
            String::from_str("could"),
            String::from_str("should"),
            String::from_str("may"),
            String::from_str("might"),
            String::from_str("must"),
            String::from_str("this"),
            String::from_str("that"),
            String::from_str("these"),
            String::from_str("those"),
            String::from_str("i"),
            String::from_str("you"),
            String::from_str("he"),
            String::from_str("she"),
            String::from_str("it"),
            String::from_str("we"),
            String::from_str("they"),
    ];
    assert(strings_view(v@) =~= preprocessor_stop_words());
    v
}

/// The words joined with single spaces.
fn join_words(ws: &[String], lo: usize, hi: usize) -> (r: String)
    requires
        lo < hi <= ws@.len(),
    ensures
        r@ == join_spaced(strings_view(ws@).subrange(lo as int, hi as int)),
{
    let mut out = ws[lo].clone();
    let mut i: usize = lo + 1;
    assert(strings_view(ws@).subrange(lo as int, lo + 1) =~= seq![ws@[lo as int]@]);
    while i < hi
        invariant
            lo < i <= hi <= ws@.len(),
            out@ == join_spaced(strings_view(ws@).subrange(lo as int, i as int)),
        decreases hi - i,
    {
        let ghost pre = strings_view(ws@).subrange(lo as int, i as int);
        let ghost next = strings_view(ws@).subrange(lo as int, i + 1);
        assert(next.drop_last() =~= pre);
        assert(next.last() == ws@[i as int]@);
        out.append(" ");
        out.append(ws[i].as_str());
        proof {
            reveal_strlit(" ");
            assert(out@ =~= join_spaced(pre) + seq![' '] + ws@[i as int]@);
        }
        i = i + 1;
    }
    out
}

/// How often `t` occurs in `ts`.
pub open spec fn count_of(ts: Seq<Seq<char>>, t: Seq<char>) -> nat
    decreases ts.len(),
{
    if ts.len() == 0 {
        0
    } else {
        count_of(ts.drop_last(), t) + if ts.last() == t {
            1nat
        } else {
            0nat
        }
    }
}

/// Each distinct token of `ts`, in order of first appearance, with how often it occurs.
pub open spec fn term_counts_of(ts: Seq<Seq<char>>, n: int) -> Seq<(Seq<char>, nat)>
    decreases n,
{
    if n <= 0 {
        seq![]
    } else {
        let c = term_counts_of(ts, n - 1);
        if ts.subrange(0, n - 1).contains(ts[n - 1]) {
            c
        } else {
            c.push((ts[n - 1], count_of(ts, ts[n - 1])))
        }
    }
}

impl TextPreprocessor {
    /// The tokens that are not stop words, in order.
    pub fn remove_stop_words(tokens: &[String]) -> (r: Vec<String>)
        ensures
            strings_view(r@) == without_stop_words(strings_view(tokens@)),
    {
        let stops = stop_list();
        let mut out: Vec<String> = Vec::new();
        let mut i: usize = 0;
        while i < tokens.len()
            invariant
                i <= tokens@.len(),
                strings_view(stops@) == preprocessor_stop_words(),
                strings_view(out@) == without_stop_words(strings_view(tokens@).subrange(0, i as int)),
            decreases tokens@.len() - i,
        {
            let ghost next = strings_view(tokens@).subrange(0, i + 1);
            assert(next.drop_last() =~= strings_view(tokens@).subrange(0, i as int));
            assert(next.last() == tokens@[i as int]@);
            if !contains_token(&stops, tokens[i].as_str()) {
                let ghost before = strings_view(out@);
                out.push(tokens[i].clone());
                assert(strings_view(out@) =~= before.push(tokens@[i as int]@));
            }
            i = i + 1;
        }
        assert(strings_view(tokens@).subrange(0, i as int) =~= strings_view(tokens@));
        out
    }

    /// Each distinct token with how often it occurs, in order of first appearance; a term's
    /// frequency is its count over the number of tokens.
    pub fn term_counts(tokens: &[String]) -> (r: Vec<(String, usize)>)
        ensures
            r@.map_values(|p: (String, usize)| (p.0@, p.1 as nat)) == term_counts_of(
                strings_view(tokens@),
                tokens@.len() as int,
            ),
    {
        let ghost tv = strings_view(tokens@);
        let mut out: Vec<(String, usize)> = Vec::new();
        let mut i: usize = 0;
        while i < tokens.len()
            invariant
                i <= tokens@.len(),
                tv == strings_view(tokens@),
                out@.map_values(|p: (String, usize)| (p.0@, p.1 as nat)) == term_counts_of(tv, i as int),
            decreases tokens@.len() - i,
        {
            let t = tokens[i].as_str();
            assert(t@ == tv[i as int]);
            let mut seen = false;
            let mut j: usize = 0;
            while j < i
                invariant
                    j <= i < tokens@.len(),
                    tv == strings_view(tokens@),
                    t@ == tv[i as int],
                    seen == tv.subrange(0, j as int).contains(tv[i as int]),
                decreases i - j,
            {
                let ghost pre = tv.subrange(0, j as int);
                let ghost next = tv.subrange(0, j + 1);
                proof {
                    assert(next =~= pre.push(tv[j as int]));
                    assert(tv[j as int] == tokens@[j as int]@);
                    assert(tv[i as int] == tokens@[i as int]@);
                }
                let same = crate::search::str_eq(tokens[j].as_str(), t);
                proof {
                    if same {
                        assert(next[j as int] == tv[i as int]);
                    }
                    if pre.contains(tv[i as int]) {
                        let w = choose|w: int| 0 <= w < pre.len() && pre[w] == tv[i as int];
                        assert(next[w] == tv[i as int]);
                    }
                    if next.contains(tv[i as int]) && !same {
                        let w = choose|w: int| 0 <= w < next.len() && next[w] == tv[i as int];
                        assert(w != j);
                        assert(pre[w] == tv[i as int]);
                    }
                }
                if same {
                    seen = true;
                }
                j = j + 1;
            }
            if !seen {
                let mut n: usize = 0;
                let mut m: usize = 0;
                while m < tokens.len()
                    invariant
                        m <= tokens@.len(),
                        n <= m,
                        tv == strings_view(tokens@),
                        t@ == tv[i as int],
                        n == count_of(tv.subrange(0, m as int), tv[i as int]),
                        i < tokens@.len(),
                    decreases tokens@.len() - m,
                {
                    proof {
                        assert(tv.subrange(0, m + 1).drop_last() =~= tv.subrange(0, m as int));
                        assert(tv.subrange(0, m + 1).last() == tokens@[m as int]@);
                        assert(tv[i as int] == tokens@[i as int]@);
                    }
                    if crate::search::str_eq(tokens[m].as_str(), t) {
                        n = n + 1;
                    }
                    m = m + 1;
                }
                assert(tv.subrange(0, m as int) =~= tv);
                let ghost before = out@.map_values(|p: (String, usize)| (p.0@, p.1 as nat));
                out.push((tokens[i].clone(), n));
                assert(out@.map_values(|p: (String, usize)| (p.0@, p.1 as nat)) =~= before.push((tv[i as int], n as nat)));
            }
            i = i + 1;
        }
        out
    }

    /// The `n`-grams of the tokens, in order.
    pub fn extract_ngrams(tokens: &[String], n: usize) -> (r: Vec<String>)
        ensures
            strings_view(r@) == ngrams(strings_view(tokens@), n as nat),
    {
        let mut out: Vec<String> = Vec::new();
        if n == 0 || tokens.len() < n {
            assert(strings_view(out@) =~= Seq::<Seq<char>>::empty());
            return out;
        }
        let len = tokens.len();
        let count = len - n + 1;
        let ghost want = ngrams(strings_view(tokens@), n as nat);
        let mut i: usize = 0;
        while i < count
            invariant
                n > 0,
                n <= tokens@.len(),
                len == tokens@.len(),
                count == len - n + 1,
                i <= count,
                want == ngrams(strings_view(tokens@), n as nat),
                want.len() == count,
                strings_view(out@) == want.subrange(0, i as int),
            decreases count - i,
        {
            let g = join_words(tokens, i, i + n);
            let ghost before = strings_view(out@);
            out.push(g);
            assert(want[i as int] == join_spaced(strings_view(tokens@).subrange(i as int, i + n)));
            assert(strings_view(out@) =~= before.push(g@));
            assert(strings_view(out@) =~= want.subrange(0, i + 1));
            i = i + 1;
        }
        assert(want.subrange(0, i as int) =~= want);
        out
    }
}

} // verus!
