use vstd::prelude::*;
use vstd::string::*;
use crate::ingestion::new_uuid;
use crate::pattern::{found_view, regex_compiles, regex_find_all, Pattern};
use crate::search::{contains_token, find_chars, find_from, str_eq};
use crate::text::{chars_of, strings_view};

verus! {

/// A named thing found in a text: its kind, its surface form, a confidence in hundredths
/// (0 to 100), and its character span `[start_position, end_position)` in the text.
#[derive(Debug, Clone)]
pub struct ExtractedEntity {
    pub id: String,
    pub entity_type: String,
    pub name: String,
    pub confidence: u32,
    pub start_position: usize,
    pub end_position: usize,
}

/// Two spans share at least one position.
pub open spec fn overlaps(a: ExtractedEntity, b: ExtractedEntity) -> bool {
    a.start_position < b.end_position && b.start_position < a.end_position
}

/// Candidate `i` ranks above candidate `j`: higher confidence, then earlier start, then longer
/// span, then earlier in the candidate list.
pub open spec fn ranks_above(cs: Seq<ExtractedEntity>, i: int, j: int) -> bool {
    let a = cs[i];
    let b = cs[j];
    a.confidence > b.confidence || (a.confidence == b.confidence && (a.start_position < b.start_position
        || (a.start_position == b.start_position && (a.end_position - a.start_position > b.end_position
        - b.start_position || (a.end_position - a.start_position == b.end_position - b.start_position
        && i < j)))))
}

fn ranks_above_exec(cs: &Vec<ExtractedEntity>, i: usize, j: usize) -> (r: bool)
    requires
        i < cs.len(),
        j < cs.len(),
        forall|k: int| 0 <= k < cs.len() ==> (#[trigger] cs@[k]).start_position <= cs@[k].end_position,
    ensures
        r == ranks_above(cs@, i as int, j as int),
{
    let a = &cs[i];
    let b = &cs[j];
    let la = a.end_position - a.start_position;
    let lb = b.end_position - b.start_position;
    a.confidence > b.confidence || (a.confidence == b.confidence && (a.start_position < b.start_position
        || (a.start_position == b.start_position && (la > lb || (la == lb && i < j)))))
}

/// The outcome of overlap resolution over candidates `cs`, as the positions `r` of the kept
/// ones: they are pairwise disjoint and in descending rank, and every candidate left out
/// overlaps a kept one that ranks above it.
pub open spec fn resolved(cs: Seq<ExtractedEntity>, r: Seq<usize>) -> bool {
    &&& forall|i: int| 0 <= i < r.len() ==> #[trigger] r[i] < cs.len()
    &&& forall|i: int, j: int|
        0 <= i < j < r.len() ==> ranks_above(cs, #[trigger] r[i] as int, #[trigger] r[j] as int)
            && !overlaps(cs[r[i] as int], cs[r[j] as int])
    &&& forall|c: int| 0 <= c < cs.len() && !r.contains(c as usize) ==> #[trigger] beaten(cs, r, c)
}

/// Candidate `c` overlaps a kept candidate that ranks above it.
pub open spec fn beaten(cs: Seq<ExtractedEntity>, r: Seq<usize>, c: int) -> bool {
    exists|i: int| 0 <= i < r.len() && overlaps(cs[#[trigger] r[i] as int], cs[c]) && ranks_above(cs, r[i] as int, c)
}

pub open spec fn count_true(s: Seq<bool>) -> nat
    decreases s.len(),
{
    if s.len() == 0 {
        0
    } else {
        count_true(s.drop_last()) + if s.last() {
            1nat
        } else {
            0nat
        }
    }
}

proof fn lemma_count_clear(s: Seq<bool>, i: int)
    requires
        0 <= i < s.len(),
    ensures
        count_true(s.update(i, false)) + (if s[i] { 1nat } else { 0nat }) == count_true(s),
    decreases s.len(),
{
    let t = s.update(i, false);
    if i == s.len() - 1 {
        assert(t.drop_last() =~= s.drop_last());
    } else {
        lemma_count_clear(s.drop_last(), i);
        assert(t.drop_last() =~= s.drop_last().update(i, false));
    }
}

/// Overlap resolution: keeps, among overlapping candidates, the one of highest rank.
pub fn resolve_overlaps(cs: &Vec<ExtractedEntity>) -> (r: Vec<usize>)
    requires
        forall|k: int| 0 <= k < cs.len() ==> (#[trigger] cs@[k]).start_position <= cs@[k].end_position,
    ensures
        resolved(cs@, r@),
{
    let n = cs.len();
    let mut kept: Vec<usize> = Vec::new();
    let mut is_kept: Vec<bool> = Vec::new();
    let mut alive: Vec<bool> = Vec::new();
    let mut i: usize = 0;
    while i < n
        invariant
            i <= n,
            n == cs.len(),
            is_kept.len() == i,
            alive.len() == i,
            forall|c: int| 0 <= c < i ==> !is_kept[c] && alive[c],
        decreases n - i,
    {
        is_kept.push(false);
        alive.push(true);
        i = i + 1;
    }
    loop
        invariant
            n == cs.len(),
            forall|k: int| 0 <= k < cs.len() ==> (#[trigger] cs@[k]).start_position <= cs@[k].end_position,
            is_kept.len() == n,
            alive.len() == n,
            forall|k: int| 0 <= k < kept.len() ==> #[trigger] kept[k] < n,
            forall|c: int| 0 <= c < n ==> (is_kept[c] <==> kept@.contains(c as usize)),
            forall|c: int|
                0 <= c < n && #[trigger] alive[c] ==> !is_kept[c] && forall|k: int|
                    0 <= k < kept.len() ==> !overlaps(cs@[kept[k] as int], cs@[c]),
            forall|c: int|
                0 <= c < n && !alive[c] && !is_kept[c] ==> exists|k: int|
                    0 <= k < kept.len() && overlaps(cs@[#[trigger] kept[k] as int], cs@[c]) && ranks_above(
                        cs@,
                        kept[k] as int,
                        c,
                    ),
            forall|k: int, c: int|
                0 <= k < kept.len() && 0 <= c < n && #[trigger] alive[c] ==> ranks_above(
                    cs@,
                    #[trigger] kept[k] as int,
                    c,
                ),
            forall|k: int, m: int|
                0 <= k < m < kept.len() ==> ranks_above(cs@, #[trigger] kept[k] as int, #[trigger] kept[m] as int)
                    && !overlaps(cs@[kept[k] as int], cs@[kept[m] as int]),
        ensures
            is_kept.len() == n,
            alive.len() == n,
            forall|x: int| 0 <= x < n ==> !alive[x],
            forall|c: int| 0 <= c < n ==> (is_kept[c] <==> kept@.contains(c as usize)),
            forall|k: int| 0 <= k < kept.len() ==> #[trigger] kept[k] < n,
            forall|c: int|
                0 <= c < n && !alive[c] && !is_kept[c] ==> exists|k: int|
                    0 <= k < kept.len() && overlaps(cs@[#[trigger] kept[k] as int], cs@[c]) && ranks_above(
                        cs@,
                        kept[k] as int,
                        c,
                    ),
            forall|k: int, m: int|
                0 <= k < m < kept.len() ==> ranks_above(cs@, #[trigger] kept[k] as int, #[trigger] kept[m] as int)
                    && !overlaps(cs@[kept[k] as int], cs@[kept[m] as int]),
        decreases count_true(alive@),
    {
        // The best candidate still alive.
        let mut best: Option<usize> = None;
        let mut c: usize = 0;
        while c < n
            invariant
                n == cs.len(),
                alive.len() == n,
                c <= n,
                forall|k: int| 0 <= k < cs.len() ==> (#[trigger] cs@[k]).start_position <= cs@[k].end_position,
                best matches Some(b) ==> b < c && alive[b as int] && forall|x: int|
                    0 <= x < c && alive[x] && x != b ==> ranks_above(cs@, b as int, x),
                best is None ==> forall|x: int| 0 <= x < c ==> !alive[x],
            decreases n - c,
        {
            if alive[c] {
                match best {
                    Some(b) => {
                        if ranks_above_exec(cs, c, b) {
                            proof {
                                assert forall|x: int| 0 <= x < c + 1 && alive[x] && x != c implies ranks_above(
                                    cs@,
                                    c as int,
                                    x,
                                ) by {
                                    if x != b {
                                        lemma_rank_transitive(cs@, c as int, b as int, x);
                                    }
                                }
                            }
                            best = Some(c);
                        } else {
                            proof {
                                lemma_rank_total(cs@, c as int, b as int);
                            }
                        }
                    },
                    None => {
                        best = Some(c);
                    },
                }
            }
            c = c + 1;
        }
        match best {
            None => {
                break;
            },
            Some(b) => {
                let ghost old_alive = alive@;
                let ghost old_kept = kept@;
                kept.push(b);
                is_kept.set(b, true);
                alive.set(b, false);
                proof {
                    lemma_count_clear(old_alive, b as int);
                    assert(old_kept.push(b) == kept@);
                    assert forall|c: int| 0 <= c < n implies (is_kept[c] <==> kept@.contains(c as usize)) by {
                        if c == b {
                            assert(kept@[old_kept.len() as int] == b);
                        } else {
                            if kept@.contains(c as usize) {
                                let k = choose|k: int| 0 <= k < kept@.len() && kept@[k] == c as usize;
                                assert(old_kept[k] == c as usize);
                            }
                            if old_kept.contains(c as usize) {
                                let k = choose|k: int| 0 <= k < old_kept.len() && old_kept[k] == c as usize;
                                assert(kept@[k] == c as usize);
                            }
                        }
                    }
                }
                let mut c: usize = 0;
                while c < n
                    invariant
                        n == cs.len(),
                        alive.len() == n,
                        is_kept.len() == n,
                        c <= n,
                        b < n,
                        kept@ == old_kept.push(b),
                        is_kept[b as int],
                        !alive[b as int],
                        forall|k: int| 0 <= k < cs.len() ==> (#[trigger] cs@[k]).start_position <= cs@[k].end_position,
                        forall|x: int| 0 <= x < n && #[trigger] alive[x] ==> old_alive[x],
                        count_true(alive@) < count_true(old_alive),
                        forall|x: int| 0 <= x < c && #[trigger] alive[x] ==> !overlaps(cs@[b as int], cs@[x]),
                        forall|x: int| c <= x < n && x != b ==> alive[x] == old_alive[x],
                        forall|x: int|
                            0 <= x < n && old_alive[x] && !alive[x] && x != b ==> overlaps(cs@[b as int], cs@[x]),
                    decreases n - c,
                {
                    if alive[c] && cs[c].start_position < cs[b].end_position && cs[b].start_position
                        < cs[c].end_position {
                        let ghost before = alive@;
                        alive.set(c, false);
                        proof {
                            lemma_count_clear(before, c as int);
                        }
                    }
                    c = c + 1;
                }
                proof {
                    let kb = old_kept.len() as int;
                    assert(kept[kb] == b);
                    assert forall|c: int|
                        0 <= c < n && #[trigger] alive[c] implies !is_kept[c] && forall|k: int|
                            0 <= k < kept.len() ==> !overlaps(cs@[kept[k] as int], cs@[c]) by {
                        assert(old_alive[c]);
                        assert forall|k: int| 0 <= k < kept.len() implies !overlaps(cs@[kept[k] as int], cs@[c]) by {
                            if k < kb {
                                assert(kept[k] == old_kept[k]);
                            }
                        }
                    }
                    assert forall|c: int|
                        0 <= c < n && !alive[c] && !is_kept[c] implies exists|k: int|
                            0 <= k < kept.len() && overlaps(cs@[#[trigger] kept[k] as int], cs@[c]) && ranks_above(
                                cs@,
                                kept[k] as int,
                                c,
                            ) by {
                        if old_alive[c] {
                            assert(overlaps(cs@[kept[kb] as int], cs@[c]));
                        } else {
                            let k = choose|k: int|
                                0 <= k < old_kept.len() && overlaps(cs@[#[trigger] old_kept[k] as int], cs@[c])
                                    && ranks_above(cs@, old_kept[k] as int, c);
                            assert(kept[k] == old_kept[k]);
                        }
                    }
                    assert forall|k: int, c: int|
                        0 <= k < kept.len() && 0 <= c < n && #[trigger] alive[c] implies ranks_above(
                            cs@,
                            #[trigger] kept[k] as int,
                            c,
                        ) by {
                        assert(old_alive[c]);
                        if k < kb {
                            assert(kept[k] == old_kept[k]);
                        }
                    }
                    assert forall|k: int, m: int| 0 <= k < m < kept.len() implies ranks_above(
                        cs@,
                        #[trigger] kept[k] as int,
                        #[trigger] kept[m] as int,
                    ) && !overlaps(cs@[kept[k] as int], cs@[kept[m] as int]) by {
                        if m == kb {
                            assert(kept[k] == old_kept[k]);
                        } else {
                            assert(kept[k] == old_kept[k]);
                            assert(kept[m] == old_kept[m]);
                        }
                    }
                    assert forall|k: int| 0 <= k < kept.len() implies #[trigger] kept[k] < n by {
                        if k < kb {
                            assert(kept[k] == old_kept[k]);
                        }
                    }
                }
            },
        }
    }
    proof {
        assert forall|c: int| 0 <= c < cs.len() && !kept@.contains(c as usize) implies #[trigger] beaten(cs@, kept@, c) by {
            assert(!is_kept[c]);
            assert(!alive[c]);
        }
    }
    kept
}

proof fn lemma_rank_transitive(cs: Seq<ExtractedEntity>, a: int, b: int, c: int)
    requires
        0 <= a < cs.len(),
        0 <= b < cs.len(),
        0 <= c < cs.len(),
        ranks_above(cs, a, b),
        ranks_above(cs, b, c),
    ensures
        ranks_above(cs, a, c),
{
}

proof fn lemma_rank_total(cs: Seq<ExtractedEntity>, a: int, b: int)
    requires
        0 <= a < cs.len(),
        0 <= b < cs.len(),
        a != b,
        !ranks_above(cs, a, b),
    ensures
        ranks_above(cs, b, a),
{
}

/// Entity disjointness: overlap resolution never keeps two candidates whose spans overlap.
pub proof fn lemma_resolved_disjoint(cs: Seq<ExtractedEntity>, r: Seq<usize>)
    requires
        resolved(cs, r),
    ensures
        forall|i: int, j: int|
            0 <= i < r.len() && 0 <= j < r.len() && i != j ==> !overlaps(cs[#[trigger] r[i] as int], cs[#[trigger] r[j] as int]),
{
    assert forall|i: int, j: int|
        0 <= i < r.len() && 0 <= j < r.len() && i != j implies !overlaps(cs[#[trigger] r[i] as int], cs[#[trigger] r[j] as int]) by {
        if i < j {
            assert(!overlaps(cs[r[i] as int], cs[r[j] as int]));
        } else {
            assert(!overlaps(cs[r[j] as int], cs[r[i] as int]));
        }
    }
}

/// The built-in extraction rules: a kind, a regular expression, and a confidence in hundredths.
pub open spec fn default_rules() -> Seq<(Seq<char>, Seq<char>, u32)> {
    seq![
        ("email"@, r#"\b[A-Za-z0-9._%+-]+@[A-Za-z0-9.-]+\.[A-Z|a-z]{2,}\b"#@, 95u32),
        ("phone"@, r#"(\+?1[-.\s]?)?\(?([0-9]{3})\)?[-.\s]?([0-9]{3})[-.\s]?([0-9]{4})"#@, 90u32),
        ("url"@, r#"https?://(?:[-\w.])+(?:[:\d]+)?(?:/(?:[\w/_.])*(?:\?(?:[\w&=%.])*)?(?:#(?:[\w.])*)?)?"#@, 95u32),
        ("date"@, r#"\b(?:\d{1,2}[/-]\d{1,2}[/-]\d{2,4}|\d{4}[/-]\d{1,2}[/-]\d{1,2})\b"#@, 85u32),
        ("money"@, r#"\$\s?(?:\d{1,3}(?:,\d{3})*|\d+)(?:\.\d{2})?"#@, 90u32),
        ("credit_card"@, r#"\b(?:\d{4}[-\s]?){3}\d{4}\b"#@, 80u32),
        ("ssn"@, r#"\b\d{3}-\d{2}-\d{4}\b"#@, 95u32),
        ("ip_address"@, r#"\b(?:[0-9]{1,3}\.){3}[0-9]{1,3}\b"#@, 90u32),
        ("person"@, r#"\b[A-Z][a-z]+ [A-Z][a-z]+\b"#@, 60u32),
        ("organization"@, r#"\b[A-Z][A-Za-z\s&]+(Inc|LLC|Corp|Corporation|Company|Co)\b"#@, 70u32),
        ("time"@, r#"\b(?:[01]?[0-9]|2[0-3]):[0-5][0-9](?:\s?[AP]M)?\b"#@, 85u32),
        ("file_path"@, r#"(?:[A-Za-z]:\\|/)[^\s<>:"|?*]+"#@, 75u32),
    ]
}

/// The rules whose expressions compile, in order.
pub open spec fn compiled_rules(rs: Seq<(Seq<char>, Seq<char>, u32)>) -> Seq<(Seq<char>, Seq<char>, u32)>
    decreases rs.len(),
{
    if rs.len() == 0 {
        seq![]
    } else if regex_compiles(rs.last().1) {
        compiled_rules(rs.drop_last()).push(rs.last())
    } else {
        compiled_rules(rs.drop_last())
    }
}

/// One extraction rule: what kind of entity its expression finds, and with what confidence.
pub struct EntityPattern {
    pub entity_type: String,
    pattern: Pattern,
    pub confidence: u32,
}

impl EntityPattern {
    pub closed spec fn rule(&self) -> (Seq<char>, Seq<char>, u32) {
        (self.entity_type@, self.pattern.source(), self.confidence)
    }
}

pub open spec fn rules_view(ps: Seq<EntityPattern>) -> Seq<(Seq<char>, Seq<char>, u32)> {
    ps.map_values(|p: EntityPattern| p.rule())
}

/// The candidates that one rule yields: each match of its expression, in order.
pub open spec fn rule_candidates(rule: (Seq<char>, Seq<char>, u32), text: Seq<char>) -> Seq<(Seq<char>, Seq<char>, u32, int, int)> {
    char_candidates(rule, regex_find_all(rule.1, text), text)
}

/// Bytes that UTF-8 spends on a character.
pub open spec fn utf8_width(c: char) -> nat {
    if (c as u32) < 0x80 {
        1
    } else if (c as u32) < 0x800 {
        2
    } else if (c as u32) < 0x10000 {
        3
    } else {
        4
    }
}

/// The byte offset, in UTF-8, of character position `i` of `s`.
pub open spec fn byte_offset(s: Seq<char>, i: int) -> nat
    decreases i,
{
    if i <= 0 {
        0
    } else {
        byte_offset(s, i - 1) + utf8_width(s[i - 1])
    }
}

/// The character position at byte offset `b` of `s`, if a character starts (or the text ends)
/// there.
pub open spec fn char_at_byte(s: Seq<char>, b: int) -> Option<int> {
    if exists|i: int| 0 <= i <= s.len() && #[trigger] byte_offset(s, i) == b {
        Some(choose|i: int| 0 <= i <= s.len() && #[trigger] byte_offset(s, i) == b)
    } else {
        None
    }
}

/// The candidates of a rule's matches `ms`, with their byte spans read as character spans;
/// a match whose ends are not both character boundaries yields none.
pub open spec fn char_candidates(
    rule: (Seq<char>, Seq<char>, u32),
    ms: Seq<(int, int, Seq<char>)>,
    text: Seq<char>,
) -> Seq<(Seq<char>, Seq<char>, u32, int, int)>
    decreases ms.len(),
{
    if ms.len() == 0 {
        seq![]
    } else {
        let r = char_candidates(rule, ms.drop_last(), text);
        let m = ms.last();
        match (char_at_byte(text, m.0), char_at_byte(text, m.1)) {
            (Some(a), Some(b)) => r.push((rule.0, m.2, rule.2, a, b)),
            _ => r,
        }
    }
}

proof fn lemma_byte_offset_increasing(s: Seq<char>, i: int, j: int)
    requires
        0 <= i < j,
    ensures
        byte_offset(s, i) < byte_offset(s, j),
    decreases j,
{
    if i < j - 1 {
        lemma_byte_offset_increasing(s, i, j - 1);
    }
}

/// The character position at byte offset `b` of the text.
pub fn char_position(s: &Vec<char>, b: usize) -> (r: Option<usize>)
    ensures
        r matches Some(i) ==> char_at_byte(s@, b as int) == Some(i as int) && i <= s.len(),
        r is None ==> char_at_byte(s@, b as int) is None,
{
    let mut acc: u128 = 0;
    let mut i: usize = 0;
    while i < s.len() && acc < b as u128
        invariant
            i <= s.len(),
            acc == byte_offset(s@, i as int),
            acc <= 4 * i,
            i > 0 ==> byte_offset(s@, i - 1) < b,
        decreases s.len() - i,
    {
        let c = s[i] as u32;
        let w: u128 = if c < 0x80 {
            1
        } else if c < 0x800 {
            2
        } else if c < 0x10000 {
            3
        } else {
            4
        };
        acc = acc + w;
        i = i + 1;
    }
    proof {
        assert forall|j: int| 0 <= j <= s@.len() && j != i implies #[trigger] byte_offset(s@, j) != b by {
            if j < i {
                if j < i - 1 {
                    lemma_byte_offset_increasing(s@, j, i - 1);
                }
            } else {
                lemma_byte_offset_increasing(s@, i as int, j);
            }
        }
    }
    if acc == b as u128 {
        proof {
            assert(byte_offset(s@, i as int) == b);
            let c = choose|k: int| 0 <= k <= s@.len() && #[trigger] byte_offset(s@, k) == b;
            assert(c == i);
        }
        Some(i)
    } else {
        None
    }
}

/// The candidates of all rules, rule by rule.
pub open spec fn all_candidates(rules: Seq<(Seq<char>, Seq<char>, u32)>, text: Seq<char>) -> Seq<(Seq<char>, Seq<char>, u32, int, int)>
    decreases rules.len(),
{
    if rules.len() == 0 {
        seq![]
    } else {
        all_candidates(rules.drop_last(), text) + rule_candidates(rules.last(), text)
    }
}

/// An entity's kind, surface form, confidence and span.
pub open spec fn entity_view(e: ExtractedEntity) -> (Seq<char>, Seq<char>, u32, int, int) {
    (e.entity_type@, e.name@, e.confidence, e.start_position as int, e.end_position as int)
}

pub open spec fn entities_view(es: Seq<ExtractedEntity>) -> Seq<(Seq<char>, Seq<char>, u32, int, int)> {
    es.map_values(|e: ExtractedEntity| entity_view(e))
}

/// Two kept entities repeat each other: the same kind and surface form, starting fewer than ten
/// positions apart.
pub open spec fn repeats(a: ExtractedEntity, b: ExtractedEntity) -> bool {
    a.entity_type@ == b.entity_type@ && a.name@ == b.name@ && (a.start_position - b.start_position < 10
        && b.start_position - a.start_position < 10)
}

/// The duplicate pass over kept positions `r`: each stays unless it repeats one that stayed
/// before it.
pub open spec fn without_repeats(cs: Seq<ExtractedEntity>, r: Seq<usize>) -> Seq<usize>
    decreases r.len(),
{
    if r.len() == 0 {
        seq![]
    } else {
        let d = without_repeats(cs, r.drop_last());
        if exists|i: int| 0 <= i < d.len() && repeats(cs[#[trigger] d[i] as int], cs[r.last() as int]) {
            d
        } else {
            d.push(r.last())
        }
    }
}

/// Finds entities with regular expressions.
pub struct RegexEntityExtractor {
    patterns: Vec<EntityPattern>,
}

impl RegexEntityExtractor {
    /// The rules in force, in order.
    pub closed spec fn rules(&self) -> Seq<(Seq<char>, Seq<char>, u32)> {
        rules_view(self.patterns@)
    }

    /// An extractor with the built-in rules (those whose expressions compile).
    pub fn new() -> (r: RegexEntityExtractor)
        ensures
            r.rules() == compiled_rules(default_rules()),
    {
        let defs: Vec<(String, String, u32)> = vec![
        (String::from_str("email"), String::from_str(r#"\b[A-Za-z0-9._%+-]+@[A-Za-z0-9.-]+\.[A-Z|a-z]{2,}\b"#), 95),
        (String::from_str("phone"), String::from_str(r#"(\+?1[-.\s]?)?\(?([0-9]{3})\)?[-.\s]?([0-9]{3})[-.\s]?([0-9]{4})"#), 90),
        (String::from_str("url"), String::from_str(r#"https?://(?:[-\w.])+(?:[:\d]+)?(?:/(?:[\w/_.])*(?:\?(?:[\w&=%.])*)?(?:#(?:[\w.])*)?)?"#), 95),
        (String::from_str("date"), String::from_str(r#"\b(?:\d{1,2}[/-]\d{1,2}[/-]\d{2,4}|\d{4}[/-]\d{1,2}[/-]\d{1,2})\b"#), 85),
        (String::from_str("money"), String::from_str(r#"\$\s?(?:\d{1,3}(?:,\d{3})*|\d+)(?:\.\d{2})?"#), 90),
        (String::from_str("credit_card"), String::from_str(r#"\b(?:\d{4}[-\s]?){3}\d{4}\b"#), 80),
        (String::from_str("ssn"), String::from_str(r#"\b\d{3}-\d{2}-\d{4}\b"#), 95),
        (String::from_str("ip_address"), String::from_str(r#"\b(?:[0-9]{1,3}\.){3}[0-9]{1,3}\b"#), 90),
        (String::from_str("person"), String::from_str(r#"\b[A-Z][a-z]+ [A-Z][a-z]+\b"#), 60),
        (String::from_str("organization"), String::from_str(r#"\b[A-Z][A-Za-z\s&]+(Inc|LLC|Corp|Corporation|Company|Co)\b"#), 70),
        (String::from_str("time"), String::from_str(r#"\b(?:[01]?[0-9]|2[0-3]):[0-5][0-9](?:\s?[AP]M)?\b"#), 85),
        (String::from_str("file_path"), String::from_str(r#"(?:[A-Za-z]:\\|/)[^\s<>:"|?*]+"#), 75),
        ];
        let ghost dv = defs@.map_values(|d: (String, String, u32)| (d.0@, d.1@, d.2));
        assert(dv =~= default_rules());
        let mut patterns: Vec<EntityPattern> = Vec::new();
        let mut i: usize = 0;
        while i < defs.len()
            invariant
                i <= defs.len(),
                dv == defs@.map_values(|d: (String, String, u32)| (d.0@, d.1@, d.2)),
                rules_view(patterns@) == compiled_rules(dv.subrange(0, i as int)),
            decreases defs.len() - i,
        {
            let ghost next = dv.subrange(0, i + 1);
            assert(next.drop_last() =~= dv.subrange(0, i as int));
            assert(next.last() == dv[i as int]);
            let ghost before = rules_view(patterns@);
            match Pattern::compile(defs[i].1.as_str()) {
                Some(p) => {
                    let ep = EntityPattern { entity_type: defs[i].0.clone(), pattern: p, confidence: defs[i].2 };
                    patterns.push(ep);
                    assert(rules_view(patterns@) =~= before.push(dv[i as int]));
                },
                None => {},
            }
            i = i + 1;
        }
        assert(dv.subrange(0, i as int) =~= dv);
        RegexEntityExtractor { patterns }
    }

    /// Adds a rule; fails, changing nothing, when the expression does not compile.
    pub fn add_custom_pattern(&mut self, entity_type: String, pattern: &str, confidence: u32) -> (r: Result<(), String>)
        ensures
            r is Ok <==> regex_compiles(pattern@),
            r is Ok ==> final(self).rules() == old(self).rules().push((entity_type@, pattern@, confidence)),
            r is Err ==> final(self).rules() == old(self).rules(),
    {
        match Pattern::compile(pattern) {
            Some(p) => {
                let ghost before = rules_view(self.patterns@);
                let ghost kind = entity_type@;
                self.patterns.push(EntityPattern { entity_type, pattern: p, confidence });
                assert(rules_view(self.patterns@) =~= before.push((kind, pattern@, confidence)));
                Ok(())
            },
            None => Err(String::from_str("invalid entity pattern")),
        }
    }

    /// The candidates of every rule, rule by rule and match by match.
    fn candidates(&self, text: &str) -> (r: Vec<ExtractedEntity>)
        ensures
            entities_view(r@) == all_candidates(self.rules(), text@),
            forall|k: int| 0 <= k < r.len() ==> (#[trigger] r@[k]).start_position <= r@[k].end_position && r@[k].end_position <= text@.len(),
    {
        let tc = chars_of(text);
        let mut out: Vec<ExtractedEntity> = Vec::new();
        let mut i: usize = 0;
        while i < self.patterns.len()
            invariant
                i <= self.patterns.len(),
                tc@ == text@,
                entities_view(out@) == all_candidates(rules_view(self.patterns@.subrange(0, i as int)), text@),
                forall|k: int| 0 <= k < out.len() ==> (#[trigger] out@[k]).start_position <= out@[k].end_position && out@[k].end_position <= text@.len(),
            decreases self.patterns.len() - i,
        {
            let p = &self.patterns[i];
            let ghost rule = p.rule();
            let ghost pre = rules_view(self.patterns@.subrange(0, i as int));
            let ghost next = rules_view(self.patterns@.subrange(0, i + 1));
            assert(next.drop_last() =~= pre);
            assert(next.last() == rule);
            let found = p.pattern.find_all(text);
            let ghost base = entities_view(out@);
            let ghost fv = found_view(found@);
            let mut j: usize = 0;
            while j < found.len()
                invariant
                    j <= found.len(),
                    p == &self.patterns@[i as int],
                    rule == p.rule(),
                    found_view(found@) == regex_find_all(rule.1, text@),
                    forall|k: int| 0 <= k < found@.len() ==> (#[trigger] found@[k]).0 <= found@[k].1,
                    fv == found_view(found@),
                    tc@ == text@,
                    entities_view(out@) == base + char_candidates(rule, fv.subrange(0, j as int), text@),
                    forall|k: int| 0 <= k < out.len() ==> (#[trigger] out@[k]).start_position <= out@[k].end_position && out@[k].end_position <= text@.len(),
                decreases found.len() - j,
            {
                let ghost m = fv[j as int];
                assert(m == (found@[j as int].0 as int, found@[j as int].1 as int, found@[j as int].2@));
                assert(fv.subrange(0, j + 1).drop_last() =~= fv.subrange(0, j as int));
                assert(fv.subrange(0, j + 1).last() == m);
                match (char_position(&tc, found[j].0), char_position(&tc, found[j].1)) {
                    (Some(a), Some(b)) => {
                        proof {
                            if a > b {
                                lemma_byte_offset_increasing(tc@, b as int, a as int);
                            }
                        }
                        let e = ExtractedEntity {
                            id: String::new(),
                            entity_type: p.entity_type.clone(),
                            name: found[j].2.clone(),
                            confidence: p.confidence,
                            start_position: a,
                            end_position: b,
                        };
                        let ghost before = entities_view(out@);
                        out.push(e);
                        assert(entities_view(out@) =~= before.push(entity_view(e)));
                    },
                    _ => {},
                }
                j = j + 1;
            }
            assert(fv.subrange(0, j as int) =~= fv);
            i = i + 1;
        }
        assert(self.patterns@.subrange(0, i as int) =~= self.patterns@);
        out
    }

    /// The entities of a text: every rule's matches, overlaps resolved in favour of the higher
    /// rank, repeats dropped, in descending rank; each gets a fresh identifier.
    pub fn extract_entities(&self, text: &str) -> (r: Vec<ExtractedEntity>)
        ensures
            exists|cs: Seq<ExtractedEntity>, kept: Seq<usize>|
                {
                    &&& entities_view(cs) == all_candidates(self.rules(), text@)
                    &&& #[trigger] resolved(cs, kept)
                    &&& entities_view(r@) == without_repeats(cs, kept).map_values(|x: usize| entity_view(cs[x as int]))
                },
            forall|k: int|
                0 <= k < r.len() ==> (#[trigger] r@[k]).start_position <= r@[k].end_position && r@[k].end_position
                    <= text@.len(),
    {
        let cs = self.candidates(text);
        let kept = resolve_overlaps(&cs);
        let mut chosen: Vec<usize> = Vec::new();
        let mut i: usize = 0;
        while i < kept.len()
            invariant
                i <= kept.len(),
                forall|k: int| 0 <= k < kept.len() ==> #[trigger] kept@[k] < cs.len(),
                chosen@ == without_repeats(cs@, kept@.subrange(0, i as int)),
                forall|k: int| 0 <= k < chosen.len() ==> #[trigger] chosen@[k] < cs.len(),
            decreases kept.len() - i,
        {
            let ghost next = kept@.subrange(0, i + 1);
            assert(next.drop_last() =~= kept@.subrange(0, i as int));
            assert(next.last() == kept@[i as int]);
            let c = kept[i];
            let mut dup = false;
            let mut j: usize = 0;
            while j < chosen.len()
                invariant
                    j <= chosen.len(),
                    c < cs.len(),
                    forall|k: int| 0 <= k < chosen.len() ==> #[trigger] chosen@[k] < cs.len(),
                    dup == exists|x: int| 0 <= x < j && repeats(cs@[#[trigger] chosen@[x] as int], cs@[c as int]),
                decreases chosen.len() - j,
            {
                let a = &cs[chosen[j]];
                let b = &cs[c];
                let close = (a.start_position <= b.start_position && b.start_position - a.start_position < 10)
                    || (b.start_position < a.start_position && a.start_position - b.start_position < 10);
                if close && str_eq(a.entity_type.as_str(), b.entity_type.as_str()) && str_eq(a.name.as_str(), b.name.as_str()) {
                    dup = true;
                }
                j = j + 1;
            }
            if !dup {
                chosen.push(c);
            }
            i = i + 1;
        }
        assert(kept@.subrange(0, i as int) =~= kept@);
        let mut out: Vec<ExtractedEntity> = Vec::new();
        let mut k: usize = 0;
        while k < chosen.len()
            invariant
                k <= chosen.len(),
                forall|x: int| 0 <= x < chosen.len() ==> #[trigger] chosen@[x] < cs.len(),
                entities_view(out@) == chosen@.subrange(0, k as int).map_values(|x: usize| entity_view(cs@[x as int])),
                forall|x: int| 0 <= x < cs.len() ==> (#[trigger] cs@[x]).start_position <= cs@[x].end_position && cs@[x].end_position <= text@.len(),
                forall|x: int| 0 <= x < out.len() ==> (#[trigger] out@[x]).start_position <= out@[x].end_position && out@[x].end_position <= text@.len(),
            decreases chosen.len() - k,
        {
            let src = &cs[chosen[k]];
            let e = ExtractedEntity {
                id: new_uuid(),
                entity_type: src.entity_type.clone(),
                name: src.name.clone(),
                confidence: src.confidence,
                start_position: src.start_position,
                end_position: src.end_position,
            };
            let ghost before = entities_view(out@);
            out.push(e);
            assert(entities_view(out@) =~= before.push(entity_view(e)));
            assert(chosen@.subrange(0, k + 1).map_values(|x: usize| entity_view(cs@[x as int])) =~= chosen@.subrange(0, k as int).map_values(
                |x: usize| entity_view(cs@[x as int]),
            ).push(entity_view(cs@[chosen@[k as int] as int])));
            k = k + 1;
        }
        assert(chosen@.subrange(0, k as int) =~= chosen@);
        assert(resolved(cs@, kept@));
        out
    }
}

/// `a` comes strictly before `b` in code-point order.
pub open spec fn lex_lt(a: Seq<char>, b: Seq<char>) -> bool
    decreases a.len(),
{
    if a.len() == 0 {
        b.len() > 0
    } else if b.len() == 0 {
        false
    } else if a[0] != b[0] {
        a[0] < b[0]
    } else {
        lex_lt(a.drop_first(), b.drop_first())
    }
}

proof fn lemma_lex_irreflexive(a: Seq<char>)
    ensures
        !lex_lt(a, a),
    decreases a.len(),
{
    if a.len() > 0 {
        lemma_lex_irreflexive(a.drop_first());
    }
}

pub(crate) proof fn lemma_lex_transitive(a: Seq<char>, b: Seq<char>, c: Seq<char>)
    requires
        lex_lt(a, b),
        lex_lt(b, c),
    ensures
        lex_lt(a, c),
    decreases a.len(),
{
    if a.len() > 0 && b.len() > 0 && c.len() > 0 && a[0] == b[0] && b[0] == c[0] {
        lemma_lex_transitive(a.drop_first(), b.drop_first(), c.drop_first());
    }
}

pub(crate) proof fn lemma_lex_total(a: Seq<char>, b: Seq<char>)
    requires
        a != b,
    ensures
        lex_lt(a, b) || lex_lt(b, a),
    decreases a.len(),
{
    if a.len() > 0 && b.len() > 0 && a[0] == b[0] {
        if a.drop_first() == b.drop_first() {
            assert(a =~= seq![a[0]] + a.drop_first());
            assert(b =~= seq![b[0]] + b.drop_first());
        }
        lemma_lex_total(a.drop_first(), b.drop_first());
    } else if a.len() == 0 && b.len() == 0 {
        assert(a =~= b);
    }
}

/// Entity `i` is listed before entity `j`: by name in code-point order, then by position.
pub open spec fn listed_before(es: Seq<ExtractedEntity>, i: int, j: int) -> bool {
    lex_lt(es[i].name@, es[j].name@) || (es[i].name@ == es[j].name@ && i < j)
}

/// Entity `i` answers an entity search: its name holds `text` (any name does when `text` is
/// empty), and its kind is one of `kinds` (any kind is when `kinds` is empty).
pub open spec fn entity_matches(es: Seq<ExtractedEntity>, i: int, text: Seq<char>, kinds: Seq<Seq<char>>) -> bool {
    (text.len() == 0 || find_from(es[i].name@, text, 0) is Some) && (kinds.len() == 0 || kinds.contains(
        es[i].entity_type@,
    ))
}

/// The outcome of an entity search: matching positions, in listing order, as many as `limit`
/// allows, and every matching entity left out comes after all that were listed.
pub open spec fn entity_search_result(
    es: Seq<ExtractedEntity>,
    text: Seq<char>,
    kinds: Seq<Seq<char>>,
    limit: nat,
    r: Seq<usize>,
) -> bool {
    &&& r.len() <= limit
    &&& forall|i: int| 0 <= i < r.len() ==> #[trigger] r[i] < es.len() && entity_matches(es, r[i] as int, text, kinds)
    &&& forall|i: int, j: int| 0 <= i < j < r.len() ==> listed_before(es, #[trigger] r[i] as int, #[trigger] r[j] as int)
    &&& forall|c: int|
        0 <= c < es.len() && entity_matches(es, c, text, kinds) && !r.contains(c as usize) ==> r.len() == limit
            && forall|i: int| 0 <= i < r.len() ==> listed_before(es, #[trigger] r[i] as int, c)
}

pub(crate) fn lex_lt_exec(a: &Vec<char>, b: &Vec<char>) -> (r: bool)
    ensures
        r == lex_lt(a@, b@),
{
    let mut i: usize = 0;
    assert(a@.subrange(0, a@.len() as int) =~= a@);
    assert(b@.subrange(0, b@.len() as int) =~= b@);
    while i < a.len() && i < b.len() && a[i] == b[i]
        invariant
            i <= a.len(),
            i <= b.len(),
            lex_lt(a@, b@) == lex_lt(a@.subrange(i as int, a@.len() as int), b@.subrange(i as int, b@.len() as int)),
        decreases a.len() - i,
    {
        let ghost sa = a@.subrange(i as int, a@.len() as int);
        let ghost sb = b@.subrange(i as int, b@.len() as int);
        assert(sa.drop_first() =~= a@.subrange(i + 1, a@.len() as int));
        assert(sb.drop_first() =~= b@.subrange(i + 1, b@.len() as int));
        i = i + 1;
    }
    let ghost sa = a@.subrange(i as int, a@.len() as int);
    let ghost sb = b@.subrange(i as int, b@.len() as int);
    if i == a.len() {
        i < b.len()
    } else if i == b.len() {
        false
    } else {
        assert(sa[0] == a@[i as int] && sb[0] == b@[i as int]);
        a[i] < b[i]
    }
}

proof fn lemma_listed_total(es: Seq<ExtractedEntity>, i: int, j: int)
    requires
        i != j,
        !listed_before(es, i, j),
    ensures
        listed_before(es, j, i),
{
    if es[i].name@ != es[j].name@ {
        lemma_lex_total(es[i].name@, es[j].name@);
    }
}

proof fn lemma_listed_transitive(es: Seq<ExtractedEntity>, i: int, j: int, k: int)
    requires
        listed_before(es, i, j),
        listed_before(es, j, k),
    ensures
        listed_before(es, i, k),
{
    let (a, b, c) = (es[i].name@, es[j].name@, es[k].name@);
    if lex_lt(a, b) && lex_lt(b, c) {
        lemma_lex_transitive(a, b, c);
    }
}

/// Looks entities up by name and kind: those whose name holds `text` and whose kind is among
/// `kinds`, listed by name, at most `limit` of them; the result gives their positions.
pub fn search_entities(entities: &Vec<ExtractedEntity>, text: &str, kinds: &Vec<String>, limit: usize) -> (r: Vec<usize>)
    ensures
        entity_search_result(entities@, text@, strings_view(kinds@), limit as nat, r@),
{
    let ghost es = entities@;
    let ghost kv = strings_view(kinds@);
    let needle = chars_of(text);
    let n = entities.len();
    // Which entities match, and which are still to be listed.
    let mut open: Vec<bool> = Vec::new();
    let mut i: usize = 0;
    while i < n
        invariant
            i <= n,
            n == entities.len(),
            es == entities@,
            kv == strings_view(kinds@),
            needle@ == text@,
            needle@.len() <= isize::MAX,
            open.len() == i,
            forall|c: int| 0 <= c < i ==> (open[c] <==> entity_matches(es, c, text@, kv)),
        decreases n - i,
    {
        let name = chars_of(entities[i].name.as_str());
        let found = needle.len() == 0 || find_chars(&name, &needle).is_some();
        let kind_ok = kinds.len() == 0 || contains_token(kinds, entities[i].entity_type.as_str());
        open.push(found && kind_ok);
        i = i + 1;
    }
    let mut out: Vec<usize> = Vec::new();
    while out.len() < limit
        invariant
            n == entities.len(),
            es == entities@,
            kv == strings_view(kinds@),
            open.len() == n,
            out.len() <= limit,
            forall|k: int| 0 <= k < out.len() ==> #[trigger] out@[k] < n && entity_matches(es, out@[k] as int, text@, kv),
            forall|c: int| 0 <= c < n ==> (#[trigger] open[c] <==> (entity_matches(es, c, text@, kv) && !out@.contains(c as usize))),
            forall|k: int, m: int| 0 <= k < m < out.len() ==> listed_before(es, #[trigger] out@[k] as int, #[trigger] out@[m] as int),
            forall|k: int, c: int|
                0 <= k < out.len() && 0 <= c < n && #[trigger] open[c] ==> listed_before(es, #[trigger] out@[k] as int, c),
        ensures
            out.len() <= limit,
            forall|k: int| 0 <= k < out.len() ==> #[trigger] out@[k] < n && entity_matches(es, out@[k] as int, text@, kv),
            forall|c: int| 0 <= c < n ==> (#[trigger] open[c] <==> (entity_matches(es, c, text@, kv) && !out@.contains(c as usize))),
            forall|k: int, m: int| 0 <= k < m < out.len() ==> listed_before(es, #[trigger] out@[k] as int, #[trigger] out@[m] as int),
            forall|k: int, c: int|
                0 <= k < out.len() && 0 <= c < n && #[trigger] open[c] ==> listed_before(es, #[trigger] out@[k] as int, c),
            out.len() < limit ==> forall|c: int| 0 <= c < n ==> !open[c],
        decreases limit - out.len(),
    {
        let mut best: Option<usize> = None;
        let mut c: usize = 0;
        while c < n
            invariant
                n == entities.len(),
                es == entities@,
                open.len() == n,
                c <= n,
                best matches Some(b) ==> b < c && open[b as int] && forall|x: int|
                    0 <= x < c && open[x] && x != b ==> listed_before(es, b as int, x),
                best is None ==> forall|x: int| 0 <= x < c ==> !open[x],
            decreases n - c,
        {
            if open[c] {
                match best {
                    Some(b) => {
                        let nc = chars_of(entities[c].name.as_str());
                        let nb = chars_of(entities[b].name.as_str());
                        let before = lex_lt_exec(&nc, &nb) || (same_name(&nc, &nb) && c < b);
                        if before {
                            proof {
                                assert forall|x: int| 0 <= x < c + 1 && open[x] && x != c implies listed_before(
                                    es,
                                    c as int,
                                    x,
                                ) by {
                                    if x != b {
                                        lemma_listed_transitive(es, c as int, b as int, x);
                                    }
                                }
                            }
                            best = Some(c);
                        } else {
                            proof {
                                lemma_listed_total(es, c as int, b as int);
                            }
                        }
                    },
                    None => {
                        best = Some(c);
                    },
                }
            }
            c = c + 1;
        }
        match best {
            None => {
                break;
            },
            Some(b) => {
                let ghost old_out = out@;
                let ghost old_open = open@;
                out.push(b);
                open.set(b, false);
                proof {
                    assert forall|c: int| 0 <= c < n implies (#[trigger] open[c] <==> (entity_matches(es, c, text@, kv)
                        && !out@.contains(c as usize))) by {
                        if out@.contains(c as usize) && c != b {
                            let k = choose|k: int| 0 <= k < out@.len() && out@[k] == c as usize;
                            assert(old_out[k] == c as usize);
                        }
                        if old_out.contains(c as usize) {
                            let k = choose|k: int| 0 <= k < old_out.len() && old_out[k] == c as usize;
                            assert(out@[k] == c as usize);
                        }
                        assert(out@[old_out.len() as int] == b);
                    }
                    assert forall|k: int, m: int| 0 <= k < m < out.len() implies listed_before(
                        es,
                        #[trigger] out@[k] as int,
                        #[trigger] out@[m] as int,
                    ) by {
                        assert(out@[k] == old_out[k]);
                        if m < old_out.len() {
                            assert(out@[m] == old_out[m]);
                        }
                    }
                    assert forall|k: int, c: int|
                        0 <= k < out.len() && 0 <= c < n && #[trigger] open[c] implies listed_before(
                            es,
                            #[trigger] out@[k] as int,
                            c,
                        ) by {
                        assert(old_open[c]);
                        if k < old_out.len() {
                            assert(out@[k] == old_out[k]);
                        }
                    }
                }
            },
        }
    }
    proof {
        assert forall|c: int|
            0 <= c < es.len() && entity_matches(es, c, text@, kv) && !out@.contains(c as usize) implies out@.len()
            == limit && forall|i: int| 0 <= i < out@.len() ==> listed_before(es, #[trigger] out@[i] as int, c) by {
            assert(open[c]);
        }
    }
    out
}

/// Whether two names are the same.
fn same_name(a: &Vec<char>, b: &Vec<char>) -> (r: bool)
    ensures
        r == (a@ == b@),
{
    crate::text::same_chars(a, b)
}

} // verus!
