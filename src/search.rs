use vstd::prelude::*;
use vstd::string::*;
use crate::distance::{edit_distance_chars, lev};
use crate::numparse::{decimal_value, parse_i64, parse_u64, parses_u64, signed_value, unsigned_digits};
use crate::entities::{lemma_lex_total, lemma_lex_transitive, lex_lt, lex_lt_exec};
use crate::pattern::{regex_compiles, regex_finds, Pattern};
use crate::ranker::TextHighlight;
use crate::text::{
    alnum_of, chars_of, is_space, space_char, is_stop, keeps, lower_of, same_chars, split_word_spans, spans_view,
    string_of, strings_view, sub_chars, to_lower, tokenize, tokens, trim_range, trim_word, words,
    word_spans, lemma_word_spans_bounds,
};

verus! {

/// How a highlighted span was found.
#[derive(Debug, Clone, Copy, PartialEq, Eq, Structural)]
pub enum MatchType {
    Exact,
    Fuzzy,
    Semantic,
    Partial,
}

/// A span of a document that a query matched: token positions `[start, end)`.
#[derive(Debug, Clone)]
pub struct MatchPosition {
    pub start: usize,
    pub end: usize,
    pub field: String,
    pub match_type: MatchType,
}

/// The retrieval strategy of a query.
#[derive(Debug, Clone, Copy, PartialEq, Eq, Structural)]
pub enum SearchMode {
    Standard,
    Fuzzy,
    Semantic,
    Boolean,
    Wildcard,
}

/// The order a caller asks results to come in.
#[derive(Debug, Clone, Copy, PartialEq, Eq, Structural)]
pub enum SortBy {
    Relevance,
    Date,
    Title,
    Size,
}

/// A document as the search index stores it.
#[derive(Debug, Clone)]
pub struct Document {
    pub id: String,
    pub title: String,
    pub content: String,
    pub created_at: i64,
    pub size: u64,
    pub metadata: Vec<(String, String)>,
}

/// Whether two strings hold the same characters.
pub fn str_eq(a: &str, b: &str) -> (r: bool)
    ensures
        r == (a@ == b@),
{
    same_chars(&chars_of(a), &chars_of(b))
}

/// A copy of a list of key/value pairs.
pub fn copy_pairs(v: &Vec<(String, String)>) -> (r: Vec<(String, String)>)
    ensures
        r@ == v@,
{
    let mut out: Vec<(String, String)> = Vec::new();
    let mut i: usize = 0;
    while i < v.len()
        invariant
            i <= v.len(),
            out@ == v@.subrange(0, i as int),
        decreases v.len() - i,
    {
        let (k, x) = (v[i].0.clone(), v[i].1.clone());
        out.push((k, x));
        proof {
            assert(v@.subrange(0, i + 1) =~= v@.subrange(0, i as int).push(v@[i as int]));
        }
        i = i + 1;
    }
    assert(v@.subrange(0, i as int) =~= v@);
    out
}

/// Two documents agree field by field.
pub open spec fn same_document(a: Document, b: Document) -> bool {
    &&& a.id == b.id
    &&& a.title == b.title
    &&& a.content == b.content
    &&& a.created_at == b.created_at
    &&& a.size == b.size
    &&& a.metadata@ == b.metadata@
}

/// A copy of a document.
pub fn copy_document(d: &Document) -> (r: Document)
    ensures
        same_document(r, *d),
{
    Document {
        id: d.id.clone(),
        title: d.title.clone(),
        content: d.content.clone(),
        created_at: d.created_at,
        size: d.size,
        metadata: copy_pairs(&d.metadata),
    }
}

/// The tokens a document is indexed under: those of its content, then those of its title.
pub open spec fn doc_tokens(d: Document) -> Seq<Seq<char>> {
    tokens(d.content@) + tokens(d.title@)
}

/// No two documents share an identifier.
pub open spec fn ids_unique(ds: Seq<Document>) -> bool {
    forall|i: int, j: int| 0 <= i < j < ds.len() ==> #[trigger] ds[i].id@ != #[trigger] ds[j].id@
}

/// Some document has this identifier.
pub open spec fn has_id(ds: Seq<Document>, id: Seq<char>) -> bool {
    exists|k: int| 0 <= k < ds.len() && #[trigger] ds[k].id@ == id
}

/// The documents after `d` is added: it replaces the document with its identifier, or
/// comes last.
pub open spec fn after_add(ds: Seq<Document>, d: Document) -> Seq<Document> {
    if has_id(ds, d.id@) {
        ds.update(choose|k: int| 0 <= k < ds.len() && #[trigger] ds[k].id@ == d.id@, d)
    } else {
        ds.push(d)
    }
}

/// The documents after the one with identifier `id` is removed.
pub open spec fn after_remove(ds: Seq<Document>, id: Seq<char>) -> Seq<Document> {
    if has_id(ds, id) {
        ds.remove(choose|k: int| 0 <= k < ds.len() && #[trigger] ds[k].id@ == id)
    } else {
        ds
    }
}

/// The ascending token positions at which `t` stands in `toks`.
pub open spec fn positions_of(toks: Seq<Seq<char>>, t: Seq<char>) -> Seq<int>
    decreases toks.len(),
{
    if toks.len() == 0 {
        seq![]
    } else if toks.last() == t {
        positions_of(toks.drop_last(), t).push(toks.len() - 1)
    } else {
        positions_of(toks.drop_last(), t)
    }
}

/// The number of documents whose tokens include `t`.
pub open spec fn df_of(ds: Seq<Document>, t: Seq<char>) -> nat
    decreases ds.len(),
{
    if ds.len() == 0 {
        0
    } else {
        df_of(ds.drop_last(), t) + if doc_tokens(ds.last()).contains(t) {
            1nat
        } else {
            0nat
        }
    }
}

/// One entry of a term's posting list: a document and where the term stands in it.
#[derive(Debug, Clone)]
pub struct Posting {
    pub document_id: String,
    pub positions: Vec<usize>,
}

/// The documents that hold `t`, in index order, with the positions of `t` in each.
pub open spec fn postings_of(ds: Seq<Document>, t: Seq<char>) -> Seq<(Seq<char>, Seq<int>)>
    decreases ds.len(),
{
    if ds.len() == 0 {
        seq![]
    } else if doc_tokens(ds.last()).contains(t) {
        postings_of(ds.drop_last(), t).push((ds.last().id@, positions_of(doc_tokens(ds.last()), t)))
    } else {
        postings_of(ds.drop_last(), t)
    }
}

pub open spec fn postings_view(v: Seq<Posting>) -> Seq<(Seq<char>, Seq<int>)> {
    v.map_values(
        |p: Posting| (p.document_id@, p.positions@.map_values(|x: usize| x as int)),
    )
}

/// An in-memory full-text index over documents.
pub struct SearchEngine {
    documents: Vec<Document>,
    token_lists: Vec<Vec<String>>,
}

impl SearchEngine {
    /// The indexed documents, in the order they were first added.
    pub closed spec fn docs(&self) -> Seq<Document> {
        self.documents@
    }

    /// The stored token list of every document is the one its text gives, and identifiers
    /// are unique.
    pub closed spec fn wf(&self) -> bool {
        &&& self.documents.len() == self.token_lists.len()
        &&& forall|k: int|
            0 <= k < self.documents.len() ==> strings_view(#[trigger] self.token_lists@[k]@)
                == doc_tokens(self.documents@[k])
        &&& ids_unique(self.documents@)
    }

    pub fn new() -> (r: SearchEngine)
        ensures
            r.wf(),
            r.docs().len() == 0,
    {
        SearchEngine { documents: Vec::new(), token_lists: Vec::new() }
    }

    /// Where the document with this identifier stands, if any.
    fn find(&self, id: &str) -> (r: Option<usize>)
        requires
            self.wf(),
        ensures
            r matches Some(k) ==> k < self.docs().len() && self.docs()[k as int].id@ == id@,
            r is None ==> !has_id(self.docs(), id@),
    {
        let mut k: usize = 0;
        while k < self.documents.len()
            invariant
                k <= self.documents.len(),
                forall|j: int| 0 <= j < k ==> #[trigger] self.documents@[j].id@ != id@,
            decreases self.documents.len() - k,
        {
            if str_eq(self.documents[k].id.as_str(), id) {
                return Some(k);
            }
            k = k + 1;
        }
        None
    }

    /// Indexes a document; one already indexed under the same identifier is replaced in place.
    pub fn add_document(&mut self, document: Document) -> (r: Result<(), String>)
        requires
            old(self).wf(),
        ensures
            final(self).wf(),
            r is Ok,
            final(self).docs() == after_add(old(self).docs(), document),
    {
        let mut toks = tokenize(document.content.as_str());
        let title_toks = tokenize(document.title.as_str());
        let ghost content_view = strings_view(toks@);
        let mut i: usize = 0;
        while i < title_toks.len()
            invariant
                i <= title_toks.len(),
                strings_view(toks@) == content_view + strings_view(title_toks@).subrange(0, i as int),
            decreases title_toks.len() - i,
        {
            let ghost before = strings_view(toks@);
            toks.push(title_toks[i].clone());
            proof {
                assert(strings_view(toks@) =~= before.push(title_toks@[i as int]@));
                assert(strings_view(title_toks@).subrange(0, i + 1) =~= strings_view(
                    title_toks@,
                ).subrange(0, i as int).push(title_toks@[i as int]@));
            }
            i = i + 1;
        }
        assert(strings_view(title_toks@).subrange(0, i as int) =~= strings_view(title_toks@));
        assert(strings_view(toks@) == doc_tokens(document));
        match self.find(document.id.as_str()) {
            Some(k) => {
                let ghost old_docs = self.documents@;
                proof {
                    let c = choose|c: int| 0 <= c < old_docs.len() && #[trigger] old_docs[c].id@ == document.id@;
                    if c != k {
                        if c < k {
                            assert(old_docs[c].id@ != old_docs[k as int].id@);
                        } else {
                            assert(old_docs[k as int].id@ != old_docs[c].id@);
                        }
                    }
                }
                self.documents.set(k, document);
                self.token_lists.set(k, toks);
                proof {
                    assert(self.documents@ == old_docs.update(k as int, document));
                    assert forall|i: int, j: int| 0 <= i < j < self.documents@.len() implies
                        #[trigger] self.documents@[i].id@ != #[trigger] self.documents@[j].id@ by {
                        assert(old_docs[i].id@ != old_docs[j].id@);
                    }
                    assert forall|j: int| 0 <= j < self.documents.len() implies strings_view(
                        #[trigger] self.token_lists@[j]@,
                    ) == doc_tokens(self.documents@[j]) by {}
                }
            },
            None => {
                let ghost old_docs = self.documents@;
                self.documents.push(document);
                self.token_lists.push(toks);
                proof {
                    assert forall|i: int, j: int| 0 <= i < j < self.documents@.len() implies
                        #[trigger] self.documents@[i].id@ != #[trigger] self.documents@[j].id@ by {
                        if j == old_docs.len() {
                            assert(!has_id(old_docs, document.id@));
                            assert(old_docs[i].id@ != document.id@);
                        } else {
                            assert(old_docs[i].id@ != old_docs[j].id@);
                        }
                    }
                    assert forall|j: int| 0 <= j < self.documents.len() implies strings_view(
                        #[trigger] self.token_lists@[j]@,
                    ) == doc_tokens(self.documents@[j]) by {}
                }
            },
        }
        Ok(())
    }

    /// Takes the document with this identifier out of the index, with all its tokens.
    pub fn remove_document(&mut self, document_id: &str) -> (r: Result<(), String>)
        requires
            old(self).wf(),
        ensures
            final(self).wf(),
            r is Err <==> !has_id(old(self).docs(), document_id@),
            final(self).docs() == after_remove(old(self).docs(), document_id@),
            !has_id(final(self).docs(), document_id@),
    {
        match self.find(document_id) {
            Some(k) => {
                let ghost old_docs = self.documents@;
                let ghost old_lists = self.token_lists@;
                proof {
                    let c = choose|c: int| 0 <= c < old_docs.len() && #[trigger] old_docs[c].id@ == document_id@;
                    if c != k {
                        if c < k {
                            assert(old_docs[c].id@ != old_docs[k as int].id@);
                        } else {
                            assert(old_docs[k as int].id@ != old_docs[c].id@);
                        }
                    }
                }
                self.documents.remove(k);
                self.token_lists.remove(k);
                proof {
                    assert forall|i: int, j: int| 0 <= i < j < self.documents@.len() implies
                        #[trigger] self.documents@[i].id@ != #[trigger] self.documents@[j].id@ by {
                        let oi = if i < k { i } else { i + 1 };
                        let oj = if j < k { j } else { j + 1 };
                        assert(self.documents@[i] == old_docs[oi]);
                        assert(self.documents@[j] == old_docs[oj]);
                        assert(old_docs[oi].id@ != old_docs[oj].id@);
                    }
                    assert forall|j: int| 0 <= j < self.documents.len() implies strings_view(
                        #[trigger] self.token_lists@[j]@,
                    ) == doc_tokens(self.documents@[j]) by {
                        let oj = if j < k { j } else { j + 1 };
                        assert(self.documents@[j] == old_docs[oj]);
                        assert(self.token_lists@[j] == old_lists[oj]);
                    }
                    if has_id(self.documents@, document_id@) {
                        let j = choose|j: int|
                            0 <= j < self.documents@.len() && #[trigger] self.documents@[j].id@
                                == document_id@;
                        let oj = if j < k { j } else { j + 1 };
                        assert(self.documents@[j] == old_docs[oj]);
                        if oj < k {
                            assert(old_docs[oj].id@ != old_docs[k as int].id@);
                        } else {
                            assert(old_docs[k as int].id@ != old_docs[oj].id@);
                        }
                    }
                }
                Ok(())
            },
            None => {
                let mut msg = String::new();
                msg.append("document not found: ");
                msg.append(document_id);
                Err(msg)
            },
        }
    }

    /// The number of indexed documents.
    pub fn get_document_count(&self) -> (r: usize)
        requires
            self.wf(),
        ensures
            r == self.docs().len(),
    {
        self.documents.len()
    }

    /// The stored document with this identifier.
    pub fn get_document(&self, id: &str) -> (r: Option<&Document>)
        requires
            self.wf(),
        ensures
            r is None <==> !has_id(self.docs(), id@),
            r matches Some(d) ==> exists|k: int|
                0 <= k < self.docs().len() && self.docs()[k] == *d && d.id@ == id@,
    {
        match self.find(id) {
            Some(k) => Some(&self.documents[k]),
            None => None,
        }
    }

    /// Recomputes every document's tokens from its text, in index order; the documents stay as
    /// they are.
    pub fn rebuild_index(&mut self)
        requires
            old(self).wf(),
        ensures
            final(self).wf(),
            final(self).docs() == old(self).docs(),
    {
        let mut lists: Vec<Vec<String>> = Vec::new();
        let mut k: usize = 0;
        while k < self.documents.len()
            invariant
                old(self).wf(),
                self.documents@ == old(self).documents@,
                k <= self.documents.len(),
                lists.len() == k,
                forall|j: int| 0 <= j < k ==> strings_view(#[trigger] lists@[j]@) == doc_tokens(self.documents@[j]),
            decreases self.documents.len() - k,
        {
            let d = &self.documents[k];
            let mut toks = tokenize(d.content.as_str());
            let title_toks = tokenize(d.title.as_str());
            let ghost content_view = strings_view(toks@);
            let mut i: usize = 0;
            while i < title_toks.len()
                invariant
                    i <= title_toks.len(),
                    strings_view(toks@) == content_view + strings_view(title_toks@).subrange(0, i as int),
                decreases title_toks.len() - i,
            {
                let ghost before = strings_view(toks@);
                toks.push(title_toks[i].clone());
                proof {
                    assert(strings_view(toks@) =~= before.push(title_toks@[i as int]@));
                    assert(strings_view(title_toks@).subrange(0, i + 1) =~= strings_view(
                        title_toks@,
                    ).subrange(0, i as int).push(title_toks@[i as int]@));
                }
                i = i + 1;
            }
            assert(strings_view(title_toks@).subrange(0, i as int) =~= strings_view(title_toks@));
            lists.push(toks);
            k = k + 1;
        }
        self.token_lists = lists;
    }

    /// Drops every document.
    pub fn clear_index(&mut self)
        ensures
            final(self).wf(),
            final(self).docs().len() == 0,
    {
        self.documents.clear();
        self.token_lists.clear();
    }
}

/// How many characters of content a result's snippet shows at most.
pub const SNIPPET_LENGTH: usize = 200;

/// A query as the caller states it.
#[derive(Debug, Clone)]
pub struct SearchQuery {
    pub query: String,
    pub filters: Vec<(String, String)>,
    pub limit: Option<usize>,
    pub offset: Option<usize>,
    pub sort_by: Option<SortBy>,
    pub search_mode: SearchMode,
}

/// What ranking needs to know of one matched term in one document.
#[derive(Debug, Clone)]
pub struct TermHit {
    /// The index term that matched.
    pub term: String,
    /// How often the term stands in the document.
    pub occurrences: usize,
    /// How many tokens the document has.
    pub document_length: usize,
    /// How many documents hold the term.
    pub document_frequency: usize,
    /// How many documents the index holds.
    pub total_documents: usize,
    /// The edit distance between the query term and the index term (zero for exact matches).
    pub distance: usize,
    /// The longer of the two lengths, in characters.
    pub max_length: usize,
}

/// A document that a query selected, with what its ranking needs.
#[derive(Debug, Clone)]
pub struct SearchResult {
    pub document_id: String,
    pub title: String,
    pub content_snippet: String,
    pub match_positions: Vec<MatchPosition>,
    pub metadata: Vec<(String, String)>,
    pub hits: Vec<TermHit>,
}

/// The terms of `s` in the order they first appear, each once.
pub open spec fn distinct(s: Seq<Seq<char>>) -> Seq<Seq<char>>
    decreases s.len(),
{
    if s.len() == 0 {
        seq![]
    } else {
        let d = distinct(s.drop_last());
        if d.contains(s.last()) {
            d
        } else {
            d.push(s.last())
        }
    }
}

pub open spec fn max_nat(a: nat, b: nat) -> nat {
    if a >= b {
        a
    } else {
        b
    }
}

/// A query term and an index term are close when their edit distance is at most a third of
/// the longer length.
pub open spec fn close(q: Seq<char>, t: Seq<char>) -> bool {
    lev(q, t) <= max_nat(q.len(), t.len()) / 3
}

/// The query terms that the tokens hold, each with distance zero and its own length.
pub open spec fn standard_terms(toks: Seq<Seq<char>>, qs: Seq<Seq<char>>) -> Seq<(Seq<char>, nat, nat)>
    decreases qs.len(),
{
    if qs.len() == 0 {
        seq![]
    } else {
        let r = standard_terms(toks, qs.drop_last());
        let q = qs.last();
        if toks.contains(q) {
            r.push((q, 0nat, q.len()))
        } else {
            r
        }
    }
}

/// The terms of `ts` close to `q`, with their distance and the longer length.
pub open spec fn fuzzy_terms_one(q: Seq<char>, ts: Seq<Seq<char>>) -> Seq<(Seq<char>, nat, nat)>
    decreases ts.len(),
{
    if ts.len() == 0 {
        seq![]
    } else {
        let r = fuzzy_terms_one(q, ts.drop_last());
        let t = ts.last();
        if close(q, t) {
            r.push((t, lev(q, t), max_nat(q.len(), t.len())))
        } else {
            r
        }
    }
}

/// For each query term in turn, the distinct tokens close to it.
pub open spec fn fuzzy_terms(toks: Seq<Seq<char>>, qs: Seq<Seq<char>>) -> Seq<(Seq<char>, nat, nat)>
    decreases qs.len(),
{
    if qs.len() == 0 {
        seq![]
    } else {
        fuzzy_terms(toks, qs.drop_last()) + fuzzy_terms_one(qs.last(), distinct(toks))
    }
}

/// The terms of `ts` that the pattern finds a match in.
pub open spec fn wildcard_terms(pattern: Seq<char>, ts: Seq<Seq<char>>) -> Seq<(Seq<char>, nat, nat)>
    decreases ts.len(),
{
    if ts.len() == 0 {
        seq![]
    } else {
        let r = wildcard_terms(pattern, ts.drop_last());
        let t = ts.last();
        if regex_finds(pattern, t) {
            r.push((t, 0nat, t.len()))
        } else {
            r
        }
    }
}

/// A wildcard query as a regular expression: `*` stands for any run, `?` for any character.
pub open spec fn wildcard_regex(q: Seq<char>) -> Seq<char>
    decreases q.len(),
{
    if q.len() == 0 {
        seq![]
    } else {
        let r = wildcard_regex(q.drop_last());
        if q.last() == '*' {
            r + seq!['.', '*']
        } else if q.last() == '?' {
            r.push('.')
        } else {
            r.push(q.last())
        }
    }
}

/// A boolean query read as a disjunction of conjunctions: `or` separates the groups, `and`
/// joins terms within a group, and every other word contributes its token, if it has one.
pub open spec fn bool_groups(ws: Seq<Seq<char>>) -> Seq<Seq<Seq<char>>>
    decreases ws.len(),
{
    if ws.len() == 0 {
        seq![seq![]]
    } else {
        let g = bool_groups(ws.drop_last());
        let w = ws.last();
        if w == "or"@ {
            g.push(seq![])
        } else if w == "and"@ {
            g
        } else if keeps(trim_word(w)) {
            g.update(g.len() - 1, g.last().push(trim_word(w)))
        } else {
            g
        }
    }
}

/// The groups of a boolean query text.
pub open spec fn query_groups(q: Seq<char>) -> Seq<Seq<Seq<char>>> {
    bool_groups(words(lower_of(q)))
}

/// Some group has terms, and the tokens hold all of them.
pub open spec fn boolean_match(toks: Seq<Seq<char>>, groups: Seq<Seq<Seq<char>>>) -> bool {
    exists|g: int|
        0 <= g < groups.len() && #[trigger] groups[g].len() > 0 && forall|j: int|
            0 <= j < groups[g].len() ==> toks.contains(#[trigger] groups[g][j])
}

/// The matched terms that a document is credited with under a query.
pub open spec fn candidate_terms(d: Document, query: SearchQuery) -> Seq<(Seq<char>, nat, nat)> {
    match query.search_mode {
        SearchMode::Standard => standard_terms(doc_tokens(d), tokens(query.query@)),
        SearchMode::Fuzzy => fuzzy_terms(doc_tokens(d), tokens(query.query@)),
        SearchMode::Wildcard => wildcard_terms(wildcard_regex(query.query@), distinct(doc_tokens(d))),
        _ => seq![],
    }
}

/// Whether a query retrieves a document, before filters.
pub open spec fn retrieves(d: Document, query: SearchQuery) -> bool {
    !blank(query.query@) && match query.search_mode {
        SearchMode::Boolean => boolean_match(doc_tokens(d), query_groups(query.query@)),
        SearchMode::Semantic => false,
        _ => candidate_terms(d, query).len() > 0,
    }
}

/// A query text with nothing but whitespace in it.
pub open spec fn blank(q: Seq<char>) -> bool {
    forall|i: int| 0 <= i < q.len() ==> space_char(#[trigger] q[i])
}

/// Whether a query text holds nothing but whitespace.
pub fn is_blank(q: &str) -> (r: bool)
    ensures
        r == blank(q@),
{
    let cs = chars_of(q);
    let mut i: usize = 0;
    while i < cs.len()
        invariant
            i <= cs.len(),
            cs@ == q@,
            forall|j: int| 0 <= j < i ==> space_char(#[trigger] cs@[j]),
        decreases cs.len() - i,
    {
        if !is_space(cs[i]) {
            return false;
        }
        i = i + 1;
    }
    true
}

/// No position is chosen when the query retrieves nothing.
proof fn lemma_chosen_none(ds: Seq<Document>, query: SearchQuery, n: int)
    requires
        blank(query.query@),
    ensures
        chosen(ds, query, n).len() == 0,
    decreases n,
{
    if n > 0 {
        lemma_chosen_none(ds, query, n - 1);
    }
}

/// The value of the first metadata entry under `key`.
pub open spec fn lookup(meta: Seq<(String, String)>, key: Seq<char>) -> Option<Seq<char>>
    decreases meta.len(),
{
    if meta.len() == 0 {
        None
    } else if meta[0].0@ == key {
        Some(meta[0].1@)
    } else {
        lookup(meta.drop_first(), key)
    }
}

/// One filter: `min_size` and `max_size` bound the size when their value is a number; any
/// other key asks that the document's metadata, where it has the key, hold the value.
pub open spec fn filter_passes(d: Document, key: Seq<char>, val: Seq<char>) -> bool {
    if key == "min_size"@ {
        parses_u64(val) ==> d.size >= decimal_value(unsigned_digits(val))
    } else if key == "max_size"@ {
        parses_u64(val) ==> d.size <= decimal_value(unsigned_digits(val))
    } else {
        lookup(d.metadata@, key) matches Some(v) ==> v == val
    }
}

pub open spec fn passes_filters(d: Document, filters: Seq<(String, String)>) -> bool {
    forall|i: int| 0 <= i < filters.len() ==> filter_passes(d, (#[trigger] filters[i]).0@, filters[i].1@)
}

/// The positions, among the first `n` documents, of those the query selects.
pub open spec fn chosen(ds: Seq<Document>, query: SearchQuery, n: int) -> Seq<int>
    decreases n,
{
    if n <= 0 {
        seq![]
    } else {
        let r = chosen(ds, query, n - 1);
        if retrieves(ds[n - 1], query) && passes_filters(ds[n - 1], query.filters@) {
            r.push(n - 1)
        } else {
            r
        }
    }
}

/// A hit describes `tm` in document `d` of the index `ds`.
pub open spec fn hit_is(h: TermHit, ds: Seq<Document>, d: Document, tm: (Seq<char>, nat, nat)) -> bool {
    &&& h.term@ == tm.0
    &&& h.distance == tm.1
    &&& h.max_length == tm.2
    &&& h.occurrences == positions_of(doc_tokens(d), tm.0).len()
    &&& h.document_length == doc_tokens(d).len()
    &&& h.document_frequency == df_of(ds, tm.0)
    &&& h.total_documents == ds.len()
}

pub open spec fn hits_agree(hs: Seq<TermHit>, ds: Seq<Document>, d: Document, tms: Seq<(Seq<char>, nat, nat)>) -> bool {
    hs.len() == tms.len() && forall|k: int| 0 <= k < hs.len() ==> hit_is(#[trigger] hs[k], ds, d, tms[k])
}

/// `p + n`, or the largest `usize` where that does not fit.
pub open spec fn capped_sum(p: int, n: int) -> int {
    if p + n <= usize::MAX {
        p + n
    } else {
        usize::MAX as int
    }
}

/// The token spans of the query tokens in a document: for each query token in turn, each of
/// its positions `p`, spanning `[p, p + its length)`.
pub open spec fn match_spans(toks: Seq<Seq<char>>, qs: Seq<Seq<char>>) -> Seq<(int, int)>
    decreases qs.len(),
{
    if qs.len() == 0 {
        seq![]
    } else {
        let q = qs.last();
        match_spans(toks, qs.drop_last()) + positions_of(toks, q).map_values(|x: int| (x, capped_sum(x, q.len() as int)))
    }
}

/// The match positions are exact content matches over these spans.
pub open spec fn positions_agree(ms: Seq<MatchPosition>, spans: Seq<(int, int)>) -> bool {
    &&& ms.len() == spans.len()
    &&& forall|i: int|
        0 <= i < ms.len() ==> (#[trigger] ms[i]).start == spans[i].0 && ms[i].end == spans[i].1 && ms[i].field@
            == "content"@ && ms[i].match_type == MatchType::Exact
}

/// A result describes document `d` of the index `ds` under the query.
pub open spec fn result_is(r: SearchResult, ds: Seq<Document>, d: Document, query: SearchQuery) -> bool {
    &&& r.document_id == d.id
    &&& r.title == d.title
    &&& r.metadata@ == d.metadata@
    &&& r.content_snippet@ == snippet_of(d.content@, query.query@, SNIPPET_LENGTH as nat)
    &&& positions_agree(r.match_positions@, match_spans(doc_tokens(d), tokens(query.query@)))
    &&& hits_agree(r.hits@, ds, d, candidate_terms(d, query))
}

/// The results are those of the selected documents, in index order.
pub open spec fn results_match(rs: Seq<SearchResult>, ds: Seq<Document>, query: SearchQuery) -> bool {
    let c = chosen(ds, query, ds.len() as int);
    rs.len() == c.len() && forall|i: int| 0 <= i < rs.len() ==> result_is(#[trigger] rs[i], ds, ds[c[i]], query)
}

/// Whether the tokens hold `t`.
pub fn contains_token(v: &Vec<String>, t: &str) -> (r: bool)
    ensures
        r == strings_view(v@).contains(t@),
{
    let mut i: usize = 0;
    while i < v.len()
        invariant
            i <= v.len(),
            forall|j: int| 0 <= j < i ==> strings_view(v@)[j] != t@,
        decreases v.len() - i,
    {
        if str_eq(v[i].as_str(), t) {
            assert(strings_view(v@)[i as int] == t@);
            return true;
        }
        i = i + 1;
    }
    false
}

/// The ascending positions at which `t` stands among the tokens.
pub fn term_positions(v: &Vec<String>, t: &str) -> (r: Vec<usize>)
    ensures
        r@.map_values(|x: usize| x as int) == positions_of(strings_view(v@), t@),
{
    let mut out: Vec<usize> = Vec::new();
    let mut i: usize = 0;
    while i < v.len()
        invariant
            i <= v.len(),
            out@.map_values(|x: usize| x as int) == positions_of(strings_view(v@).subrange(0, i as int), t@),
        decreases v.len() - i,
    {
        let ghost pre = strings_view(v@).subrange(0, i as int);
        let ghost next = strings_view(v@).subrange(0, i + 1);
        assert(next.drop_last() =~= pre);
        assert(next.last() == v@[i as int]@);
        let ghost before = out@.map_values(|x: usize| x as int);
        if str_eq(v[i].as_str(), t) {
            out.push(i);
            assert(out@.map_values(|x: usize| x as int) =~= before.push(i as int));
        }
        i = i + 1;
    }
    assert(strings_view(v@).subrange(0, i as int) =~= strings_view(v@));
    out
}

/// The tokens in the order they first appear, each once.
pub fn distinct_tokens(v: &Vec<String>) -> (r: Vec<String>)
    ensures
        strings_view(r@) == distinct(strings_view(v@)),
{
    let mut out: Vec<String> = Vec::new();
    let mut i: usize = 0;
    while i < v.len()
        invariant
            i <= v.len(),
            strings_view(out@) == distinct(strings_view(v@).subrange(0, i as int)),
        decreases v.len() - i,
    {
        let ghost next = strings_view(v@).subrange(0, i + 1);
        assert(next.drop_last() =~= strings_view(v@).subrange(0, i as int));
        assert(next.last() == v@[i as int]@);
        let ghost before = strings_view(out@);
        if !contains_token(&out, v[i].as_str()) {
            out.push(v[i].clone());
            assert(strings_view(out@) =~= before.push(v@[i as int]@));
        }
        i = i + 1;
    }
    assert(strings_view(v@).subrange(0, i as int) =~= strings_view(v@));
    out
}

/// The regular expression for a wildcard query.
pub fn wildcard_to_regex(q: &str) -> (r: String)
    ensures
        r@ == wildcard_regex(q@),
{
    let cs = chars_of(q);
    let mut out: Vec<char> = Vec::new();
    let mut i: usize = 0;
    while i < cs.len()
        invariant
            i <= cs.len(),
            cs@ == q@,
            out@ == wildcard_regex(cs@.subrange(0, i as int)),
        decreases cs.len() - i,
    {
        let ghost next = cs@.subrange(0, i + 1);
        assert(next.drop_last() =~= cs@.subrange(0, i as int));
        assert(next.last() == cs@[i as int]);
        let ghost before = out@;
        let c = cs[i];
        if c == '*' {
            out.push('.');
            out.push('*');
            assert(out@ =~= before + seq!['.', '*']);
        } else if c == '?' {
            out.push('.');
        } else {
            out.push(c);
        }
        i = i + 1;
    }
    assert(cs@.subrange(0, i as int) =~= cs@);
    string_of(&out)
}

/// The groups of a boolean query.
pub fn parse_boolean_query(q: &str) -> (r: Vec<Vec<String>>)
    ensures
        r@.map_values(|g: Vec<String>| strings_view(g@)) == query_groups(q@),
{
    let lower = to_lower(q);
    let lc = chars_of(lower.as_str());
    let spans = split_word_spans(&lc);
    proof {
        lemma_word_spans_bounds(lc@);
    }
    let ghost ws = words(lc@);
    let mut groups: Vec<Vec<String>> = Vec::new();
    let first: Vec<String> = Vec::new();
    assert(strings_view(first@) =~= Seq::<Seq<char>>::empty());
    groups.push(first);
    let mut k: usize = 0;
    assert(ws.subrange(0, 0) =~= Seq::<Seq<char>>::empty());
    assert(groups@.map_values(|g: Vec<String>| strings_view(g@)) =~= seq![Seq::<Seq<char>>::empty()]);
    while k < spans.len()
        invariant
            k <= spans.len(),
            spans_view(spans@) == word_spans(lc@),
            ws == words(lc@),
            ws.len() == spans.len(),
            forall|j: int|
                0 <= j < word_spans(lc@).len() ==> 0 <= #[trigger] word_spans(lc@)[j].0
                    < word_spans(lc@)[j].1 <= lc@.len(),
            groups.len() > 0,
            groups@.map_values(|g: Vec<String>| strings_view(g@)) == bool_groups(ws.subrange(0, k as int)),
        decreases spans.len() - k,
    {
        let (a, b) = spans[k];
        assert(spans_view(spans@)[k as int] == (a as int, b as int));
        assert(ws[k as int] == lc@.subrange(a as int, b as int));
        let ghost next = ws.subrange(0, k + 1);
        assert(next.drop_last() =~= ws.subrange(0, k as int));
        assert(next.last() == ws[k as int]);
        let ghost before = groups@.map_values(|g: Vec<String>| strings_view(g@));
        let word = sub_chars(&lc, a, b);
        if same_chars(&word, &chars_of("or")) {
            let fresh: Vec<String> = Vec::new();
            assert(strings_view(fresh@) =~= Seq::<Seq<char>>::empty());
            groups.push(fresh);
            assert(groups@.map_values(|g: Vec<String>| strings_view(g@)) =~= before.push(seq![]));
        } else if same_chars(&word, &chars_of("and")) {
        } else {
            let (ta, tb) = trim_range(&lc, a, b);
            let piece = sub_chars(&lc, ta, tb);
            if tb > ta && !is_stop(&piece) {
                let last = groups.len() - 1;
                let mut g = groups.remove(last);
                let ghost gold = strings_view(g@);
                g.push(string_of(&piece));
                assert(strings_view(g@) =~= gold.push(piece@));
                groups.push(g);
                assert(groups@.map_values(|g: Vec<String>| strings_view(g@)) =~= before.update(
                    last as int,
                    before.last().push(piece@),
                ));
            }
        }
        k = k + 1;
    }
    assert(ws.subrange(0, k as int) =~= ws);
    groups
}

impl SearchEngine {
    /// How many documents hold `term`.
    pub fn df(&self, term: &str) -> (r: usize)
        requires
            self.wf(),
        ensures
            r == df_of(self.docs(), term@),
    {
        let mut count: usize = 0;
        let mut k: usize = 0;
        while k < self.documents.len()
            invariant
                self.wf(),
                k <= self.documents.len(),
                count <= k,
                count == df_of(self.documents@.subrange(0, k as int), term@),
            decreases self.documents.len() - k,
        {
            let ghost next = self.documents@.subrange(0, k + 1);
            assert(next.drop_last() =~= self.documents@.subrange(0, k as int));
            assert(strings_view(self.token_lists@[k as int]@) == doc_tokens(self.documents@[k as int]));
            if contains_token(&self.token_lists[k], term) {
                count = count + 1;
            }
            k = k + 1;
        }
        assert(self.documents@.subrange(0, k as int) =~= self.documents@);
        count
    }

    /// The posting list of `term`: each document that holds it, with its positions.
    pub fn postings(&self, term: &str) -> (r: Vec<Posting>)
        requires
            self.wf(),
        ensures
            postings_view(r@) == postings_of(self.docs(), term@),
    {
        let mut out: Vec<Posting> = Vec::new();
        let mut k: usize = 0;
        while k < self.documents.len()
            invariant
                self.wf(),
                k <= self.documents.len(),
                postings_view(out@) == postings_of(self.documents@.subrange(0, k as int), term@),
            decreases self.documents.len() - k,
        {
            let ghost next = self.documents@.subrange(0, k + 1);
            assert(next.drop_last() =~= self.documents@.subrange(0, k as int));
            assert(strings_view(self.token_lists@[k as int]@) == doc_tokens(self.documents@[k as int]));
            if contains_token(&self.token_lists[k], term) {
                let ghost before = postings_view(out@);
                let positions = term_positions(&self.token_lists[k], term);
                out.push(Posting { document_id: self.documents[k].id.clone(), positions });
                assert(postings_view(out@) =~= before.push(
                    (self.documents@[k as int].id@, positions_of(doc_tokens(self.documents@[k as int]), term@)),
                ));
            }
            k = k + 1;
        }
        assert(self.documents@.subrange(0, k as int) =~= self.documents@);
        out
    }

    /// The hit for `term` in document `k`.
    fn make_hit(&self, k: usize, term: &String, distance: usize, max_length: usize) -> (r: TermHit)
        requires
            self.wf(),
            k < self.docs().len(),
        ensures
            hit_is(r, self.docs(), self.docs()[k as int], (term@, distance as nat, max_length as nat)),
    {
        assert(strings_view(self.token_lists@[k as int]@) == doc_tokens(self.documents@[k as int]));
        let positions = term_positions(&self.token_lists[k], term.as_str());
        assert(positions@.map_values(|x: usize| x as int).len() == positions@.len());
        assert(strings_view(self.token_lists@[k as int]@).len() == self.token_lists@[k as int]@.len());
        TermHit {
            term: term.clone(),
            occurrences: positions.len(),
            document_length: self.token_lists[k].len(),
            document_frequency: self.df(term.as_str()),
            total_documents: self.documents.len(),
            distance,
            max_length,
        }
    }

    /// The hits of document `k` under a standard query with tokens `qs`.
    fn standard_hits(&self, k: usize, qs: &Vec<String>) -> (r: Vec<TermHit>)
        requires
            self.wf(),
            k < self.docs().len(),
        ensures
            hits_agree(r@, self.docs(), self.docs()[k as int], standard_terms(doc_tokens(self.docs()[k as int]), strings_view(qs@))),
    {
        let ghost d = self.documents@[k as int];
        let ghost toks = doc_tokens(d);
        assert(strings_view(self.token_lists@[k as int]@) == toks);
        let mut out: Vec<TermHit> = Vec::new();
        let mut i: usize = 0;
        while i < qs.len()
            invariant
                self.wf(),
                k < self.docs().len(),
                d == self.docs()[k as int],
                toks == doc_tokens(d),
                strings_view(self.token_lists@[k as int]@) == toks,
                i <= qs.len(),
                hits_agree(out@, self.docs(), d, standard_terms(toks, strings_view(qs@).subrange(0, i as int))),
            decreases qs.len() - i,
        {
            let ghost next = strings_view(qs@).subrange(0, i + 1);
            assert(next.drop_last() =~= strings_view(qs@).subrange(0, i as int));
            assert(next.last() == qs@[i as int]@);
            if contains_token(&self.token_lists[k], qs[i].as_str()) {
                let n = chars_of(qs[i].as_str()).len();
                let h = self.make_hit(k, &qs[i], 0, n);
                out.push(h);
            }
            i = i + 1;
        }
        assert(strings_view(qs@).subrange(0, i as int) =~= strings_view(qs@));
        out
    }

    /// The hits of document `k` under a fuzzy query with tokens `qs`.
    fn fuzzy_hits(&self, k: usize, qs: &Vec<String>) -> (r: Vec<TermHit>)
        requires
            self.wf(),
            k < self.docs().len(),
        ensures
            hits_agree(r@, self.docs(), self.docs()[k as int], fuzzy_terms(doc_tokens(self.docs()[k as int]), strings_view(qs@))),
    {
        let ghost d = self.documents@[k as int];
        let ghost toks = doc_tokens(d);
        assert(strings_view(self.token_lists@[k as int]@) == toks);
        let dts = distinct_tokens(&self.token_lists[k]);
        let mut out: Vec<TermHit> = Vec::new();
        let mut i: usize = 0;
        while i < qs.len()
            invariant
                self.wf(),
                k < self.docs().len(),
                d == self.docs()[k as int],
                toks == doc_tokens(d),
                strings_view(dts@) == distinct(toks),
                i <= qs.len(),
                hits_agree(out@, self.docs(), d, fuzzy_terms(toks, strings_view(qs@).subrange(0, i as int))),
            decreases qs.len() - i,
        {
            let ghost next = strings_view(qs@).subrange(0, i + 1);
            assert(next.drop_last() =~= strings_view(qs@).subrange(0, i as int));
            assert(next.last() == qs@[i as int]@);
            let ghost q = qs@[i as int]@;
            let ghost base = fuzzy_terms(toks, strings_view(qs@).subrange(0, i as int));
            let qc = chars_of(qs[i].as_str());
            let mut j: usize = 0;
            while j < dts.len()
                invariant
                    self.wf(),
                    k < self.docs().len(),
                    d == self.docs()[k as int],
                    j <= dts.len(),
                    qc@ == q,
                    qc@.len() <= isize::MAX,
                    hits_agree(out@, self.docs(), d, base + fuzzy_terms_one(q, strings_view(dts@).subrange(0, j as int))),
                decreases dts.len() - j,
            {
                let ghost nj = strings_view(dts@).subrange(0, j + 1);
                assert(nj.drop_last() =~= strings_view(dts@).subrange(0, j as int));
                assert(nj.last() == dts@[j as int]@);
                let tc = chars_of(dts[j].as_str());
                let dist = edit_distance_chars(&qc, &tc);
                let longer = if qc.len() >= tc.len() { qc.len() } else { tc.len() };
                if dist <= longer / 3 {
                    let ghost before = base + fuzzy_terms_one(q, strings_view(dts@).subrange(0, j as int));
                    let h = self.make_hit(k, &dts[j], dist, longer);
                    out.push(h);
                    assert(base + fuzzy_terms_one(q, nj) =~= before.push((dts@[j as int]@, dist as nat, longer as nat)));
                }
                j = j + 1;
            }
            assert(strings_view(dts@).subrange(0, j as int) =~= distinct(toks));
            assert(fuzzy_terms(toks, next) == base + fuzzy_terms_one(q, distinct(toks)));
            i = i + 1;
        }
        assert(strings_view(qs@).subrange(0, i as int) =~= strings_view(qs@));
        out
    }

    /// The hits of document `k` under a wildcard pattern.
    fn wildcard_hits(&self, k: usize, pattern: &Pattern) -> (r: Vec<TermHit>)
        requires
            self.wf(),
            k < self.docs().len(),
        ensures
            hits_agree(r@, self.docs(), self.docs()[k as int], wildcard_terms(pattern.source(), distinct(doc_tokens(self.docs()[k as int])))),
    {
        let ghost d = self.documents@[k as int];
        let ghost toks = doc_tokens(d);
        assert(strings_view(self.token_lists@[k as int]@) == toks);
        let dts = distinct_tokens(&self.token_lists[k]);
        let mut out: Vec<TermHit> = Vec::new();
        let mut j: usize = 0;
        while j < dts.len()
            invariant
                self.wf(),
                k < self.docs().len(),
                d == self.docs()[k as int],
                j <= dts.len(),
                hits_agree(out@, self.docs(), d, wildcard_terms(pattern.source(), strings_view(dts@).subrange(0, j as int))),
            decreases dts.len() - j,
        {
            let ghost nj = strings_view(dts@).subrange(0, j + 1);
            assert(nj.drop_last() =~= strings_view(dts@).subrange(0, j as int));
            assert(nj.last() == dts@[j as int]@);
            if pattern.is_match(dts[j].as_str()) {
                let n = chars_of(dts[j].as_str()).len();
                let h = self.make_hit(k, &dts[j], 0, n);
                out.push(h);
            }
            j = j + 1;
        }
        assert(strings_view(dts@).subrange(0, j as int) =~= strings_view(dts@));
        out
    }

    /// Whether document `k` satisfies some group of a boolean query.
    fn boolean_hit(&self, k: usize, groups: &Vec<Vec<String>>) -> (r: bool)
        requires
            self.wf(),
            k < self.docs().len(),
        ensures
            r == boolean_match(doc_tokens(self.docs()[k as int]), groups@.map_values(|g: Vec<String>| strings_view(g@))),
    {
        let ghost toks = doc_tokens(self.documents@[k as int]);
        let ghost gs = groups@.map_values(|g: Vec<String>| strings_view(g@));
        assert(strings_view(self.token_lists@[k as int]@) == toks);
        let mut g: usize = 0;
        while g < groups.len()
            invariant
                g <= groups.len(),
                gs == groups@.map_values(|g: Vec<String>| strings_view(g@)),
                strings_view(self.token_lists@[k as int]@) == toks,
                k < self.token_lists.len(),
                k < self.documents.len(),
                toks == doc_tokens(self.documents@[k as int]),
                forall|x: int| 0 <= x < g ==> !(#[trigger] gs[x].len() > 0 && forall|j: int|
                    0 <= j < gs[x].len() ==> toks.contains(#[trigger] gs[x][j])),
            decreases groups.len() - g,
        {
            let grp = &groups[g];
            assert(gs[g as int] == strings_view(grp@));
            let mut all = grp.len() > 0;
            let mut j: usize = 0;
            while j < grp.len()
                invariant
                    j <= grp.len(),
                    grp == &groups@[g as int],
                    gs[g as int] == strings_view(grp@),
                    strings_view(self.token_lists@[k as int]@) == toks,
                    k < self.token_lists.len(),
                    all == (grp.len() > 0 && forall|x: int| 0 <= x < j ==> toks.contains(#[trigger] gs[g as int][x])),
                decreases grp.len() - j,
            {
                assert(gs[g as int][j as int] == grp@[j as int]@);
                if !contains_token(&self.token_lists[k], grp[j].as_str()) {
                    all = false;
                }
                j = j + 1;
            }
            if all {
                assert(gs[g as int].len() > 0);
                assert(gs.len() == groups.len());
                assert(forall|x: int| 0 <= x < gs[g as int].len() ==> toks.contains(#[trigger] gs[g as int][x]));
                assert(boolean_match(toks, gs));
                assert(toks == doc_tokens(self.docs()[k as int]));
                return true;
            }
            g = g + 1;
        }
        false
    }

    /// Whether document `k` passes every filter.
    fn passes(&self, k: usize, filters: &Vec<(String, String)>) -> (r: bool)
        requires
            self.wf(),
            k < self.docs().len(),
        ensures
            r == passes_filters(self.docs()[k as int], filters@),
    {
        let d = &self.documents[k];
        let mut i: usize = 0;
        while i < filters.len()
            invariant
                i <= filters.len(),
                d == &self.documents@[k as int],
                forall|x: int| 0 <= x < i ==> filter_passes(*d, (#[trigger] filters@[x]).0@, filters@[x].1@),
            decreases filters.len() - i,
        {
            let key = filters[i].0.as_str();
            let val = filters[i].1.as_str();
            let ok = if str_eq(key, "min_size") {
                match parse_u64(val) {
                    Some(n) => d.size >= n,
                    None => true,
                }
            } else if str_eq(key, "max_size") {
                match parse_u64(val) {
                    Some(n) => d.size <= n,
                    None => true,
                }
            } else {
                match metadata_lookup(&d.metadata, key) {
                    Some(v) => str_eq(v.as_str(), val),
                    None => true,
                }
            };
            if !ok {
                return false;
            }
            i = i + 1;
        }
        true
    }
}

impl SearchEngine {
    /// The candidates of document `k` under the query: whether it is retrieved, and its hits.
    fn retrieve(
        &self,
        k: usize,
        query: &SearchQuery,
        qs: &Vec<String>,
        groups: &Vec<Vec<String>>,
        pattern: &Option<Pattern>,
    ) -> (r: (bool, Vec<TermHit>))
        requires
            self.wf(),
            k < self.docs().len(),
            !blank(query.query@),
            strings_view(qs@) == tokens(query.query@),
            query.search_mode == SearchMode::Boolean ==> groups@.map_values(
                |g: Vec<String>| strings_view(g@),
            ) == query_groups(query.query@),
            query.search_mode == SearchMode::Wildcard ==> (pattern matches Some(p) && p.source()
                == wildcard_regex(query.query@)),
        ensures
            r.0 == retrieves(self.docs()[k as int], *query),
            hits_agree(r.1@, self.docs(), self.docs()[k as int], candidate_terms(self.docs()[k as int], *query)),
    {
        let empty: Vec<TermHit> = Vec::new();
        match query.search_mode {
            SearchMode::Standard => {
                let h = self.standard_hits(k, qs);
                (h.len() > 0, h)
            },
            SearchMode::Fuzzy => {
                let h = self.fuzzy_hits(k, qs);
                (h.len() > 0, h)
            },
            SearchMode::Wildcard => match pattern {
                Some(p) => {
                    let h = self.wildcard_hits(k, p);
                    (h.len() > 0, h)
                },
                None => (false, empty),
            },
            SearchMode::Boolean => (self.boolean_hit(k, groups), empty),
            SearchMode::Semantic => (false, empty),
        }
    }

    /// Where the query tokens stand in document `k`.
    fn find_match_positions(&self, k: usize, qs: &Vec<String>) -> (r: Vec<MatchPosition>)
        requires
            self.wf(),
            k < self.docs().len(),
        ensures
            positions_agree(r@, match_spans(doc_tokens(self.docs()[k as int]), strings_view(qs@))),
    {
        let ghost toks = doc_tokens(self.documents@[k as int]);
        assert(strings_view(self.token_lists@[k as int]@) == toks);
        let mut out: Vec<MatchPosition> = Vec::new();
        let mut i: usize = 0;
        while i < qs.len()
            invariant
                self.wf(),
                k < self.documents.len(),
                toks == doc_tokens(self.documents@[k as int]),
                strings_view(self.token_lists@[k as int]@) == toks,
                i <= qs.len(),
                positions_agree(out@, match_spans(toks, strings_view(qs@).subrange(0, i as int))),
            decreases qs.len() - i,
        {
            let ghost next = strings_view(qs@).subrange(0, i + 1);
            assert(next.drop_last() =~= strings_view(qs@).subrange(0, i as int));
            assert(next.last() == qs@[i as int]@);
            let ghost q = qs@[i as int]@;
            let n = chars_of(qs[i].as_str()).len();
            let ps = term_positions(&self.token_lists[k], qs[i].as_str());
            let ghost base = match_spans(toks, strings_view(qs@).subrange(0, i as int));
            let ghost add = positions_of(toks, q).map_values(|x: int| (x, capped_sum(x, q.len() as int)));
            assert(ps@.map_values(|x: usize| x as int).len() == ps@.len());
            let mut j: usize = 0;
            while j < ps.len()
                invariant
                    j <= ps.len(),
                    n == q.len(),
                    ps@.map_values(|x: usize| x as int) == positions_of(toks, q),
                    add == positions_of(toks, q).map_values(|x: int| (x, capped_sum(x, q.len() as int))),
                    positions_agree(out@, base + add.subrange(0, j as int)),
                decreases ps.len() - j,
            {
                let p = ps[j];
                assert(positions_of(toks, q)[j as int] == p as int);
                let end = p.saturating_add(n);
                let mp = MatchPosition { start: p, end, field: String::from_str("content"), match_type: MatchType::Exact };
                out.push(mp);
                assert(base + add.subrange(0, j + 1) =~= (base + add.subrange(0, j as int)).push(add[j as int]));
                j = j + 1;
            }
            assert(add.subrange(0, j as int) =~= add);
            i = i + 1;
        }
        assert(strings_view(qs@).subrange(0, i as int) =~= strings_view(qs@));
        out
    }

    /// The result that describes document `k`.
    fn make_result(&self, k: usize, query: &SearchQuery, qs: &Vec<String>, hits: Vec<TermHit>) -> (r: SearchResult)
        requires
            self.wf(),
            k < self.docs().len(),
            strings_view(qs@) == tokens(query.query@),
            hits_agree(hits@, self.docs(), self.docs()[k as int], candidate_terms(self.docs()[k as int], *query)),
        ensures
            result_is(r, self.docs(), self.docs()[k as int], *query),
    {
        let d = &self.documents[k];
        SearchResult {
            document_id: d.id.clone(),
            title: d.title.clone(),
            content_snippet: generate_snippet(d.content.as_str(), query.query.as_str(), SNIPPET_LENGTH),
            match_positions: self.find_match_positions(k, qs),
            metadata: copy_pairs(&d.metadata),
            hits,
        }
    }

    /// Runs a query: the documents it retrieves that pass its filters, in index order, each
    /// with the term statistics that ranking needs. Ranking and paging are left to the caller.
    pub fn search(&self, query: &SearchQuery) -> (r: Result<Vec<SearchResult>, String>)
        requires
            self.wf(),
        ensures
            r is Err <==> (query.search_mode == SearchMode::Semantic || (query.search_mode
                == SearchMode::Wildcard && !blank(query.query@) && !regex_compiles(wildcard_regex(query.query@)))),
            r matches Ok(rs) ==> results_match(rs@, self.docs(), *query),
            blank(query.query@) && query.search_mode != SearchMode::Semantic ==> (r matches Ok(rs) && rs.len() == 0),
    {
        if let SearchMode::Semantic = query.search_mode {
            return Err(String::from_str("semantic search is not implemented"));
        }
        if is_blank(query.query.as_str()) {
            proof {
                lemma_chosen_none(self.docs(), *query, self.docs().len() as int);
            }
            return Ok(Vec::new());
        }
        let qs = tokenize(query.query.as_str());
        let groups = match query.search_mode {
            SearchMode::Boolean => parse_boolean_query(query.query.as_str()),
            _ => Vec::new(),
        };
        let pattern = match query.search_mode {
            SearchMode::Wildcard => {
                let source = wildcard_to_regex(query.query.as_str());
                match Pattern::compile(source.as_str()) {
                    Some(p) => Some(p),
                    None => {
                        return Err(String::from_str("invalid wildcard pattern"));
                    },
                }
            },
            _ => None,
        };
        let ghost ds = self.docs();
        let mut out: Vec<SearchResult> = Vec::new();
        let mut k: usize = 0;
        while k < self.documents.len()
            invariant
                self.wf(),
                ds == self.docs(),
                k <= ds.len(),
                !blank(query.query@),
                strings_view(qs@) == tokens(query.query@),
                query.search_mode == SearchMode::Boolean ==> groups@.map_values(
                    |g: Vec<String>| strings_view(g@),
                ) == query_groups(query.query@),
                query.search_mode == SearchMode::Wildcard ==> (pattern matches Some(p) && p.source()
                    == wildcard_regex(query.query@)),
                out.len() == chosen(ds, *query, k as int).len(),
                forall|i: int|
                    0 <= i < out.len() ==> result_is(#[trigger] out@[i], ds, ds[chosen(ds, *query, k as int)[i]], *query),
            decreases ds.len() - k,
        {
            let (hit, hits) = self.retrieve(k, query, &qs, &groups, &pattern);
            let ghost before = chosen(ds, *query, k as int);
            if hit && self.passes(k, &query.filters) {
                let res = self.make_result(k, query, &qs, hits);
                out.push(res);
                assert(chosen(ds, *query, k + 1) == before.push(k as int));
            }
            k = k + 1;
        }
        Ok(out)
    }
}

/// Counts that describe the index.
#[derive(Debug, Clone, Copy)]
pub struct IndexStats {
    pub total_documents: usize,
    pub total_terms: usize,
}

/// All tokens of all documents, document by document.
pub open spec fn all_tokens(ds: Seq<Document>) -> Seq<Seq<char>>
    decreases ds.len(),
{
    if ds.len() == 0 {
        seq![]
    } else {
        all_tokens(ds.drop_last()) + doc_tokens(ds.last())
    }
}

impl SearchEngine {
    /// How many documents and how many distinct terms the index holds.
    pub fn get_index_stats(&self) -> (r: IndexStats)
        requires
            self.wf(),
        ensures
            r.total_documents == self.docs().len(),
            r.total_terms == distinct(all_tokens(self.docs())).len(),
    {
        let mut seen: Vec<String> = Vec::new();
        let mut k: usize = 0;
        while k < self.documents.len()
            invariant
                self.wf(),
                k <= self.documents.len(),
                strings_view(seen@) == distinct(all_tokens(self.documents@.subrange(0, k as int))),
            decreases self.documents.len() - k,
        {
            let ghost pre = all_tokens(self.documents@.subrange(0, k as int));
            let ghost next = self.documents@.subrange(0, k + 1);
            assert(next.drop_last() =~= self.documents@.subrange(0, k as int));
            let toks = &self.token_lists[k];
            assert(strings_view(toks@) == doc_tokens(self.documents@[k as int]));
            let mut j: usize = 0;
            while j < toks.len()
                invariant
                    j <= toks.len(),
                    strings_view(seen@) == distinct(pre + strings_view(toks@).subrange(0, j as int)),
                decreases toks.len() - j,
            {
                let ghost s = pre + strings_view(toks@).subrange(0, j as int);
                let ghost s2 = pre + strings_view(toks@).subrange(0, j + 1);
                assert(s2.drop_last() =~= s);
                assert(s2.last() == toks@[j as int]@);
                if !contains_token(&seen, toks[j].as_str()) {
                    let ghost before = strings_view(seen@);
                    seen.push(toks[j].clone());
                    assert(strings_view(seen@) =~= before.push(toks@[j as int]@));
                }
                j = j + 1;
            }
            assert(strings_view(toks@).subrange(0, j as int) =~= strings_view(toks@));
            assert(all_tokens(next) == pre + doc_tokens(self.documents@[k as int]));
            k = k + 1;
        }
        assert(self.documents@.subrange(0, k as int) =~= self.documents@);
        assert(strings_view(seen@).len() == seen@.len());
        IndexStats { total_documents: self.documents.len(), total_terms: seen.len() }
    }
}

/// The value of the first metadata entry under `key`.
pub fn metadata_lookup<'a>(meta: &'a Vec<(String, String)>, key: &str) -> (r: Option<&'a String>)
    ensures
        r is None <==> lookup(meta@, key@) is None,
        r matches Some(v) ==> lookup(meta@, key@) == Some(v@),
{
    let mut i: usize = 0;
    assert(meta@.subrange(0, meta@.len() as int) =~= meta@);
    while i < meta.len()
        invariant
            i <= meta.len(),
            lookup(meta@, key@) == lookup(meta@.subrange(i as int, meta@.len() as int), key@),
        decreases meta.len() - i,
    {
        let ghost rest = meta@.subrange(i as int, meta@.len() as int);
        assert(rest.drop_first() =~= meta@.subrange(i + 1, meta@.len() as int));
        assert(rest[0] == meta@[i as int]);
        if str_eq(meta[i].0.as_str(), key) {
            return Some(&meta[i].1);
        }
        i = i + 1;
    }
    assert(meta@.subrange(i as int, meta@.len() as int) =~= Seq::<(String, String)>::empty());
    None
}

/// The first index from `i` on at which `needle` occurs in `hay`.
pub open spec fn find_from(hay: Seq<char>, needle: Seq<char>, i: int) -> Option<int>
    decreases hay.len() + 1 - i,
{
    if i < 0 || i + needle.len() > hay.len() {
        None
    } else if hay.subrange(i, i + needle.len()) == needle {
        Some(i)
    } else {
        find_from(hay, needle, i + 1)
    }
}

/// Where the first of the query tokens that occurs at all first occurs.
pub open spec fn first_hit(hay: Seq<char>, qs: Seq<Seq<char>>) -> Option<int>
    decreases qs.len(),
{
    if qs.len() == 0 {
        None
    } else {
        match find_from(hay, qs[0], 0) {
            Some(p) => Some(p),
            None => first_hit(hay, qs.drop_first()),
        }
    }
}

pub open spec fn min_int(a: int, b: int) -> int {
    if a <= b {
        a
    } else {
        b
    }
}

pub open spec fn ellipsis() -> Seq<char> {
    seq!['\u{2026}']
}

/// The snippet of `content` for `query`: the window of up to `max` characters that starts
/// half a window before the first occurrence of a query token in the lower-case content, or
/// the start of the content when no token occurs; `…` marks each side that was cut.
pub open spec fn snippet_of(content: Seq<char>, query: Seq<char>, max: nat) -> Seq<char> {
    let n = content.len() as int;
    let start = match first_hit(lower_of(content), tokens(query)) {
        Some(pos) => min_int(if pos >= max / 2 { pos - max / 2 } else { 0 }, n),
        None => 0,
    };
    let end = min_int(start + max, n);
    (if start > 0 { ellipsis() } else { seq![] }) + content.subrange(start, end) + (if end < n {
        ellipsis()
    } else {
        seq![]
    })
}

/// Whether `needle` occurs in `hay` at index `i`.
fn occurs_at(hay: &Vec<char>, needle: &Vec<char>, i: usize) -> (r: bool)
    requires
        i + needle.len() <= hay.len(),
    ensures
        r == (hay@.subrange(i as int, i + needle.len()) == needle@),
{
    let mut j: usize = 0;
    while j < needle.len()
        invariant
            i + needle.len() <= hay.len(),
            j <= needle.len(),
            hay@.subrange(i as int, i + j) =~= needle@.subrange(0, j as int),
        decreases needle.len() - j,
    {
        if hay[i + j] != needle[j] {
            assert(hay@.subrange(i as int, i + needle.len())[j as int] != needle@[j as int]);
            return false;
        }
        assert(hay@.subrange(i as int, i + j + 1) =~= hay@.subrange(i as int, i + j).push(hay@[i + j]));
        assert(needle@.subrange(0, j + 1) =~= needle@.subrange(0, j as int).push(needle@[j as int]));
        j = j + 1;
    }
    assert(needle@.subrange(0, j as int) =~= needle@);
    true
}

/// The first index at which `needle` occurs in `hay`.
pub fn find_chars(hay: &Vec<char>, needle: &Vec<char>) -> (r: Option<usize>)
    requires
        hay@.len() <= isize::MAX,
        needle@.len() <= isize::MAX,
    ensures
        r matches Some(p) ==> find_from(hay@, needle@, 0) == Some(p as int),
        r is None ==> find_from(hay@, needle@, 0) is None,
{
    let mut i: usize = 0;
    while i + needle.len() <= hay.len()
        invariant
            hay@.len() <= isize::MAX,
            needle@.len() <= isize::MAX,
            i <= hay.len() + 1,
            find_from(hay@, needle@, 0) == find_from(hay@, needle@, i as int),
        decreases hay.len() + 1 - i,
    {
        if occurs_at(hay, needle, i) {
            return Some(i);
        }
        i = i + 1;
    }
    None
}

/// A window of up to `max_length` characters of `content` around the first place where a
/// query token occurs (case-insensitively), marked with `…` where it is cut.
pub fn generate_snippet(content: &str, query: &str, max_length: usize) -> (r: String)
    requires
        max_length <= isize::MAX,
    ensures
        r@ == snippet_of(content@, query@, max_length as nat),
{
    let cs = chars_of(content);
    let lower = to_lower(content);
    let lc = chars_of(lower.as_str());
    let qs = tokenize(query);
    let ghost qv = strings_view(qs@);
    let mut found: Option<usize> = None;
    let mut i: usize = 0;
    assert(qv.subrange(0, qv.len() as int) =~= qv);
    while i < qs.len() && found.is_none()
        invariant
            i <= qs.len(),
            qv == strings_view(qs@),
            qv == tokens(query@),
            lc@ == lower_of(content@),
            lc@.len() <= isize::MAX,
            found is None ==> first_hit(lc@, qv) == first_hit(lc@, qv.subrange(i as int, qv.len() as int)),
            found matches Some(p) ==> first_hit(lc@, qv) == Some(p as int),
        decreases qs.len() - i,
    {
        let ghost rest = qv.subrange(i as int, qv.len() as int);
        assert(rest.drop_first() =~= qv.subrange(i + 1, qv.len() as int));
        assert(rest[0] == qs@[i as int]@);
        let needle = chars_of(qs[i].as_str());
        found = find_chars(&lc, &needle);
        i = i + 1;
    }
    proof {
        if found is None {
            assert(qv.subrange(i as int, qv.len() as int) =~= Seq::<Seq<char>>::empty());
        }
    }
    let n = cs.len();
    let half = max_length / 2;
    let start: usize = match found {
        Some(pos) => {
            let s0 = if pos >= half { pos - half } else { 0 };
            if s0 <= n { s0 } else { n }
        },
        None => 0,
    };
    let end: usize = if start + max_length <= n { start + max_length } else { n };
    let mut out: Vec<char> = Vec::new();
    if start > 0 {
        out.push('\u{2026}');
    }
    let ghost head = out@;
    let mut k: usize = start;
    while k < end
        invariant
            start <= k <= end <= n,
            n == cs.len(),
            out@ == head + cs@.subrange(start as int, k as int),
        decreases end - k,
    {
        out.push(cs[k]);
        assert(cs@.subrange(start as int, k + 1) =~= cs@.subrange(start as int, k as int).push(cs@[k as int]));
        assert(out@ =~= head + cs@.subrange(start as int, k + 1));
        k = k + 1;
    }
    let ghost body = out@;
    if end < n {
        out.push('\u{2026}');
    }
    proof {
        if start > 0 {
            assert(head =~= ellipsis());
        } else {
            assert(head =~= Seq::<char>::empty());
        }
        if end < n {
            assert(out@ =~= body + ellipsis());
        } else {
            assert(out@ =~= body + Seq::<char>::empty());
        }
    }
    string_of(&out)
}

/// Positions of a term are ascending, inside the token list, and mark the term.
pub proof fn lemma_positions(toks: Seq<Seq<char>>, t: Seq<char>)
    ensures
        forall|i: int|
            0 <= i < positions_of(toks, t).len() ==> 0 <= #[trigger] positions_of(toks, t)[i] < toks.len()
                && toks[positions_of(toks, t)[i]] == t,
        forall|i: int, j: int|
            0 <= i < j < positions_of(toks, t).len() ==> #[trigger] positions_of(toks, t)[i]
                < #[trigger] positions_of(toks, t)[j],
        positions_of(toks, t).len() > 0 <==> toks.contains(t),
    decreases toks.len(),
{
    if toks.len() > 0 {
        let pre = toks.drop_last();
        lemma_positions(pre, t);
        let p = positions_of(toks, t);
        let q = positions_of(pre, t);
        assert forall|i: int| 0 <= i < q.len() implies #[trigger] q[i] < pre.len() && toks[q[i]] == t by {}
        if toks.last() == t {
            assert(p == q.push(toks.len() - 1));
            assert forall|i: int, j: int| 0 <= i < j < p.len() implies #[trigger] p[i] < #[trigger] p[j] by {
                if j < q.len() {
                    assert(q[i] < q[j]);
                }
            }
            assert(toks[toks.len() - 1] == t);
        } else {
            assert(p == q);
            if toks.contains(t) {
                let w = choose|w: int| 0 <= w < toks.len() && toks[w] == t;
                assert(pre[w] == t);
            }
            if pre.contains(t) {
                let w = choose|w: int| 0 <= w < pre.len() && pre[w] == t;
                assert(toks[w] == t);
            }
        }
    }
}

/// Every posting names a document of the index, and there is one per document that holds the
/// term.
proof fn lemma_postings_ids(ds: Seq<Document>, t: Seq<char>)
    ensures
        postings_of(ds, t).len() == df_of(ds, t),
        forall|i: int|
            0 <= i < postings_of(ds, t).len() ==> has_id(ds, #[trigger] postings_of(ds, t)[i].0),
    decreases ds.len(),
{
    if ds.len() > 0 {
        let pre = ds.drop_last();
        lemma_postings_ids(pre, t);
        let p = postings_of(ds, t);
        let q = postings_of(pre, t);
        assert forall|i: int| 0 <= i < p.len() implies has_id(ds, #[trigger] p[i].0) by {
            if i < q.len() {
                assert(p[i] == q[i]);
                assert(has_id(pre, q[i].0));
                let w = choose|w: int| 0 <= w < pre.len() && #[trigger] pre[w].id@ == q[i].0;
                assert(ds[w] == pre[w]);
            } else {
                assert(ds[ds.len() - 1].id@ == p[i].0);
            }
        }
    }
}

/// Index coherence: a term's document frequency is the number of documents whose tokens hold
/// it, which is the length of its posting list; in each posting the positions are strictly
/// increasing, lie within the document's token list, and mark the term.
pub proof fn lemma_index_coherence(engine: &SearchEngine, t: Seq<char>)
    requires
        engine.wf(),
    ensures
        df_of(engine.docs(), t) == postings_of(engine.docs(), t).len(),
        forall|k: int|
            0 <= k < engine.docs().len() ==> (doc_tokens(#[trigger] engine.docs()[k]).contains(t)
                <==> positions_of(doc_tokens(engine.docs()[k]), t).len() > 0),
        forall|k: int, i: int, j: int|
            0 <= k < engine.docs().len() && 0 <= i < j < positions_of(doc_tokens(engine.docs()[k]), t).len()
                ==> #[trigger] positions_of(doc_tokens(engine.docs()[k]), t)[i]
                < #[trigger] positions_of(doc_tokens(engine.docs()[k]), t)[j],
        forall|k: int, i: int|
            0 <= k < engine.docs().len() && 0 <= i < positions_of(doc_tokens(engine.docs()[k]), t).len()
                ==> 0 <= #[trigger] positions_of(doc_tokens(engine.docs()[k]), t)[i]
                < doc_tokens(engine.docs()[k]).len(),
{
    lemma_postings_ids(engine.docs(), t);
    assert forall|k: int| 0 <= k < engine.docs().len() implies (doc_tokens(#[trigger] engine.docs()[k]).contains(t)
        <==> positions_of(doc_tokens(engine.docs()[k]), t).len() > 0) by {
        lemma_positions(doc_tokens(engine.docs()[k]), t);
    }
    assert forall|k: int, i: int, j: int|
        0 <= k < engine.docs().len() && 0 <= i < j < positions_of(doc_tokens(engine.docs()[k]), t).len()
            implies #[trigger] positions_of(doc_tokens(engine.docs()[k]), t)[i]
            < #[trigger] positions_of(doc_tokens(engine.docs()[k]), t)[j] by {
        lemma_positions(doc_tokens(engine.docs()[k]), t);
    }
    assert forall|k: int, i: int|
        0 <= k < engine.docs().len() && 0 <= i < positions_of(doc_tokens(engine.docs()[k]), t).len()
            implies 0 <= #[trigger] positions_of(doc_tokens(engine.docs()[k]), t)[i]
            < doc_tokens(engine.docs()[k]).len() by {
        lemma_positions(doc_tokens(engine.docs()[k]), t);
    }
}

/// Re-adding a document that is already indexed, unchanged, leaves the index as it was: the
/// same documents, in the same places, and so the same postings and frequencies.
pub proof fn lemma_add_idempotent(ds: Seq<Document>, d: Document)
    requires
        ids_unique(ds),
    ensures
        after_add(after_add(ds, d), d) == after_add(ds, d),
        after_add(after_add(ds, d), d).len() == after_add(ds, d).len(),
{
    let once = after_add(ds, d);
    if has_id(ds, d.id@) {
        let k = choose|k: int| 0 <= k < ds.len() && #[trigger] ds[k].id@ == d.id@;
        assert(once[k].id@ == d.id@);
        assert(has_id(once, d.id@));
        let c = choose|c: int| 0 <= c < once.len() && #[trigger] once[c].id@ == d.id@;
        if c != k {
            assert(once[c] == ds[c]);
            if c < k {
                assert(ds[c].id@ != ds[k].id@);
            } else {
                assert(ds[k].id@ != ds[c].id@);
            }
        }
        assert(once.update(c, d) =~= once);
    } else {
        let n = ds.len() as int;
        assert(once[n].id@ == d.id@);
        let c = choose|c: int| 0 <= c < once.len() && #[trigger] once[c].id@ == d.id@;
        if c != n {
            assert(once[c] == ds[c]);
        }
        assert(once.update(c, d) =~= once);
    }
}

/// Replacing a document by one with the same tokens changes neither the frequencies nor the
/// token stream of the index.
proof fn lemma_same_tokens_update(ds: Seq<Document>, k: int, d: Document, t: Seq<char>)
    requires
        0 <= k < ds.len(),
        doc_tokens(d) == doc_tokens(ds[k]),
    ensures
        df_of(ds.update(k, d), t) == df_of(ds, t),
        all_tokens(ds.update(k, d)) == all_tokens(ds),
    decreases ds.len(),
{
    let u = ds.update(k, d);
    if k == ds.len() - 1 {
        assert(u.drop_last() =~= ds.drop_last());
    } else {
        lemma_same_tokens_update(ds.drop_last(), k, d, t);
        assert(u.drop_last() =~= ds.drop_last().update(k, d));
    }
}

/// Re-adding a document under an identifier already indexed, with the same title and content,
/// leaves the number of documents, every term's document frequency and the set of terms as
/// they were.
pub proof fn lemma_readd_keeps_counts(ds: Seq<Document>, d: Document, t: Seq<char>)
    requires
        ids_unique(ds),
        exists|k: int| 0 <= k < ds.len() && #[trigger] ds[k].id@ == d.id@ && ds[k].title@ == d.title@ && ds[k].content@ == d.content@,
    ensures
        after_add(ds, d).len() == ds.len(),
        df_of(after_add(ds, d), t) == df_of(ds, t),
        distinct(all_tokens(after_add(ds, d))) == distinct(all_tokens(ds)),
{
    let k = choose|k: int| 0 <= k < ds.len() && #[trigger] ds[k].id@ == d.id@ && ds[k].title@ == d.title@ && ds[k].content@ == d.content@;
    assert(has_id(ds, d.id@));
    let c = choose|c: int| 0 <= c < ds.len() && #[trigger] ds[c].id@ == d.id@;
    if c != k {
        if c < k {
            assert(ds[c].id@ != ds[k].id@);
        } else {
            assert(ds[k].id@ != ds[c].id@);
        }
    }
    lemma_same_tokens_update(ds, k, d, t);
}

/// A stored document reads back as it was added: after adding `d`, the document found under
/// its identifier is `d`, and the identifiers stay unique.
pub proof fn lemma_add_round_trip(ds: Seq<Document>, d: Document)
    requires
        ids_unique(ds),
    ensures
        ids_unique(after_add(ds, d)),
        has_id(after_add(ds, d), d.id@),
        forall|k: int|
            0 <= k < after_add(ds, d).len() && (#[trigger] after_add(ds, d)[k]).id@ == d.id@
                ==> after_add(ds, d)[k] == d,
{
    let once = after_add(ds, d);
    if has_id(ds, d.id@) {
        let c = choose|c: int| 0 <= c < ds.len() && #[trigger] ds[c].id@ == d.id@;
        assert(once[c] == d);
        assert forall|k: int| 0 <= k < once.len() && (#[trigger] once[k]).id@ == d.id@ implies once[k] == d by {
            if k != c {
                assert(once[k] == ds[k]);
                if k < c {
                    assert(ds[k].id@ != ds[c].id@);
                } else {
                    assert(ds[c].id@ != ds[k].id@);
                }
            }
        }
        assert forall|i: int, j: int| 0 <= i < j < once.len() implies #[trigger] once[i].id@ != #[trigger] once[j].id@ by {
            if i != c && j != c {
                assert(ds[i].id@ != ds[j].id@);
            }
            if i == c {
                assert(ds[c].id@ != ds[j].id@);
            }
            if j == c {
                assert(ds[i].id@ != ds[c].id@);
            }
        }
    } else {
        let n = ds.len() as int;
        assert(once[n] == d);
        assert forall|k: int| 0 <= k < once.len() && (#[trigger] once[k]).id@ == d.id@ implies once[k] == d by {
            if k != n {
                assert(once[k] == ds[k]);
            }
        }
        assert forall|i: int, j: int| 0 <= i < j < once.len() implies #[trigger] once[i].id@ != #[trigger] once[j].id@ by {
            if j == n {
                assert(once[i] == ds[i]);
            } else {
                assert(ds[i].id@ != ds[j].id@);
            }
        }
    }
}

/// Removing a document leaves no trace of it in the index: its identifier is gone, no posting
/// list of any term names it, and no other document is lost.
pub proof fn lemma_remove_cascade(ds: Seq<Document>, id: Seq<char>, t: Seq<char>)
    requires
        ids_unique(ds),
    ensures
        !has_id(after_remove(ds, id), id),
        forall|i: int|
            0 <= i < postings_of(after_remove(ds, id), t).len() ==> (#[trigger] postings_of(after_remove(ds, id), t)[i]).0
                != id,
        forall|k: int| 0 <= k < ds.len() && (#[trigger] ds[k]).id@ != id ==> after_remove(ds, id).contains(ds[k]),
{
    let rest = after_remove(ds, id);
    if has_id(ds, id) {
        let c = choose|c: int| 0 <= c < ds.len() && #[trigger] ds[c].id@ == id;
        if has_id(rest, id) {
            let j = choose|j: int| 0 <= j < rest.len() && #[trigger] rest[j].id@ == id;
            let oj = if j < c { j } else { j + 1 };
            assert(rest[j] == ds[oj]);
            if oj < c {
                assert(ds[oj].id@ != ds[c].id@);
            } else {
                assert(ds[c].id@ != ds[oj].id@);
            }
        }
        assert forall|k: int| 0 <= k < ds.len() && (#[trigger] ds[k]).id@ != id implies rest.contains(ds[k]) by {
            if k < c {
                assert(rest[k] == ds[k]);
            } else {
                assert(rest[k - 1] == ds[k]);
            }
        }
    } else {
        assert forall|k: int| 0 <= k < ds.len() && (#[trigger] ds[k]).id@ != id implies rest.contains(ds[k]) by {
            assert(rest[k] == ds[k]);
        }
    }
    lemma_postings_ids(rest, t);
}

/// The first of the terms `qs`, in order, that occurs in `hay` at position `p`.
pub open spec fn term_at(hay: Seq<char>, qs: Seq<Seq<char>>, p: int) -> Option<Seq<char>>
    decreases qs.len(),
{
    if qs.len() == 0 {
        None
    } else if p + qs[0].len() <= hay.len() && hay.subrange(p, p + qs[0].len()) == qs[0] {
        Some(qs[0])
    } else {
        term_at(hay, qs.drop_first(), p)
    }
}

proof fn lemma_term_at_fits(hay: Seq<char>, qs: Seq<Seq<char>>, p: int)
    ensures
        term_at(hay, qs, p) matches Some(t) ==> p + t.len() <= hay.len(),
    decreases qs.len(),
{
    if qs.len() > 0 {
        lemma_term_at_fits(hay, qs.drop_first(), p);
    }
}

/// The highlights from position `p` on, none starting before `last_end`: at each position the
/// first term that occurs there is marked, and marking resumes after its end.
pub open spec fn sweep(hay: Seq<char>, qs: Seq<Seq<char>>, p: int, last_end: int) -> Seq<(int, int, Seq<char>)>
    decreases hay.len() - p,
{
    if p < 0 || p >= hay.len() {
        seq![]
    } else if p >= last_end && term_at(hay, qs, p) is Some {
        let t = term_at(hay, qs, p)->0;
        seq![(p, p + t.len(), t)] + sweep(hay, qs, p + 1, p + t.len())
    } else {
        sweep(hay, qs, p + 1, last_end)
    }
}

/// The highlights of a text for a query: the query tokens' occurrences in the lower-case text,
/// in order of position and never overlapping.
pub open spec fn highlights_of(content: Seq<char>, query: Seq<char>) -> Seq<(int, int, Seq<char>)> {
    sweep(lower_of(content), tokens(query), 0, 0)
}

proof fn lemma_sweep_ordered(hay: Seq<char>, qs: Seq<Seq<char>>, p: int, last_end: int)
    ensures
        forall|i: int|
            0 <= i < sweep(hay, qs, p, last_end).len() ==> p <= #[trigger] sweep(hay, qs, p, last_end)[i].0
                && last_end <= sweep(hay, qs, p, last_end)[i].0 && sweep(hay, qs, p, last_end)[i].0
                <= sweep(hay, qs, p, last_end)[i].1,
        forall|i: int, j: int|
            0 <= i < j < sweep(hay, qs, p, last_end).len() ==> #[trigger] sweep(hay, qs, p, last_end)[i].1
                <= #[trigger] sweep(hay, qs, p, last_end)[j].0,
    decreases hay.len() - p,
{
    let all = sweep(hay, qs, p, last_end);
    if p < 0 || p >= hay.len() {
    } else if p >= last_end && term_at(hay, qs, p) is Some {
        let t = term_at(hay, qs, p)->0;
        lemma_sweep_ordered(hay, qs, p + 1, p + t.len());
        let rest = sweep(hay, qs, p + 1, p + t.len());
        assert(all == seq![(p, p + t.len(), t)] + rest);
        assert forall|i: int| 0 <= i < all.len() implies p <= #[trigger] all[i].0 && last_end <= all[i].0 && all[i].0
            <= all[i].1 by {
            if i > 0 {
                assert(all[i] == rest[i - 1]);
            }
        }
        assert forall|i: int, j: int| 0 <= i < j < all.len() implies #[trigger] all[i].1 <= #[trigger] all[j].0 by {
            assert(all[j] == rest[j - 1]);
            if i > 0 {
                assert(all[i] == rest[i - 1]);
            }
        }
    } else {
        lemma_sweep_ordered(hay, qs, p + 1, last_end);
        assert(all == sweep(hay, qs, p + 1, last_end));
    }
}

/// Highlights come in order of position and never overlap.
pub proof fn lemma_highlights_disjoint(content: Seq<char>, query: Seq<char>)
    ensures
        forall|i: int, j: int|
            0 <= i < j < highlights_of(content, query).len() ==> #[trigger] highlights_of(content, query)[i].1
                <= #[trigger] highlights_of(content, query)[j].0,
        forall|i: int|
            0 <= i < highlights_of(content, query).len() ==> (#[trigger] highlights_of(content, query)[i]).0
                <= highlights_of(content, query)[i].1,
{
    lemma_sweep_ordered(lower_of(content), tokens(query), 0, 0);
}

pub open spec fn highlights_view(v: Seq<TextHighlight>) -> Seq<(int, int, Seq<char>)> {
    v.map_values(|h: TextHighlight| (h.start as int, h.end as int, h.text@))
}

/// The first of the terms that occurs at position `p`.
fn term_at_exec(hay: &Vec<char>, qs: &Vec<Vec<char>>, p: usize) -> (r: Option<usize>)
    requires
        p <= hay.len(),
        hay@.len() <= isize::MAX,
        forall|i: int| 0 <= i < qs.len() ==> (#[trigger] qs@[i])@.len() <= isize::MAX,
    ensures
        r matches Some(i) ==> i < qs.len() && term_at(hay@, qs@.map_values(|q: Vec<char>| q@), p as int) == Some(qs@[i as int]@),
        r is None ==> term_at(hay@, qs@.map_values(|q: Vec<char>| q@), p as int) is None,
{
    let ghost all = qs@.map_values(|q: Vec<char>| q@);
    let mut i: usize = 0;
    assert(all.subrange(0, all.len() as int) =~= all);
    while i < qs.len()
        invariant
            i <= qs.len(),
            p <= hay.len(),
            hay@.len() <= isize::MAX,
            forall|k: int| 0 <= k < qs.len() ==> (#[trigger] qs@[k])@.len() <= isize::MAX,
            all == qs@.map_values(|q: Vec<char>| q@),
            term_at(hay@, all, p as int) == term_at(hay@, all.subrange(i as int, all.len() as int), p as int),
        decreases qs.len() - i,
    {
        let ghost rest = all.subrange(i as int, all.len() as int);
        assert(rest.drop_first() =~= all.subrange(i + 1, all.len() as int));
        assert(rest[0] == qs@[i as int]@);
        let q = &qs[i];
        assert(q@.len() <= isize::MAX);
        if p + q.len() <= hay.len() && occurs_at(hay, q, p) {
            return Some(i);
        }
        i = i + 1;
    }
    assert(all.subrange(i as int, all.len() as int) =~= Seq::<Seq<char>>::empty());
    None
}

/// Highlights for the query's tokens in the text, ordered by position and never overlapping;
/// positions count characters of the lower-case text.
pub fn generate_highlights(content: &str, query: &str) -> (r: Vec<TextHighlight>)
    ensures
        highlights_view(r@) == highlights_of(content@, query@),
{
    let lower = to_lower(content);
    let lc = chars_of(lower.as_str());
    let toks = tokenize(query);
    let mut qs: Vec<Vec<char>> = Vec::new();
    let mut i: usize = 0;
    while i < toks.len()
        invariant
            i <= toks.len(),
            qs@.map_values(|q: Vec<char>| q@) == strings_view(toks@).subrange(0, i as int),
            forall|k: int| 0 <= k < qs.len() ==> (#[trigger] qs@[k])@.len() <= isize::MAX,
        decreases toks.len() - i,
    {
        let c = chars_of(toks[i].as_str());
        let ghost before = qs@.map_values(|q: Vec<char>| q@);
        qs.push(c);
        assert(qs@.map_values(|q: Vec<char>| q@) =~= before.push(toks@[i as int]@));
        assert(strings_view(toks@).subrange(0, i + 1) =~= strings_view(toks@).subrange(0, i as int).push(toks@[i as int]@));
        i = i + 1;
    }
    assert(strings_view(toks@).subrange(0, i as int) =~= strings_view(toks@));
    let ghost qv = qs@.map_values(|q: Vec<char>| q@);
    let mut out: Vec<TextHighlight> = Vec::new();
    let mut p: usize = 0;
    let mut last_end: usize = 0;
    while p < lc.len()
        invariant
            p <= lc.len(),
            lc@.len() <= isize::MAX,
            lc@ == lower_of(content@),
            qv == qs@.map_values(|q: Vec<char>| q@),
            qv == tokens(query@),
            forall|k: int| 0 <= k < qs.len() ==> (#[trigger] qs@[k])@.len() <= isize::MAX,
            last_end <= lc.len(),
            highlights_view(out@) + sweep(lc@, qv, p as int, last_end as int) == sweep(lc@, qv, 0, 0),
        decreases lc.len() - p,
    {
        let ghost before = highlights_view(out@);
        if p >= last_end {
            match term_at_exec(&lc, &qs, p) {
                Some(k) => {
                    proof {
                        lemma_term_at_fits(lc@, qv, p as int);
                    }
                    let n = qs[k].len();
                    let h = TextHighlight { start: p, end: p + n, text: string_of(&qs[k]) };
                    out.push(h);
                    proof {
                        assert(highlights_view(out@) =~= before.push((p as int, (p + n) as int, qv[k as int])));
                        assert(sweep(lc@, qv, p as int, last_end as int) == seq![(p as int, p + n, qv[k as int])] + sweep(lc@, qv, p + 1, p + n));
                        assert(before + (seq![(p as int, p + n, qv[k as int])] + sweep(lc@, qv, p + 1, p + n)) =~= before.push((p as int, (p + n) as int, qv[k as int])) + sweep(lc@, qv, p + 1, p + n));
                    }
                    last_end = p + n;
                },
                None => {},
            }
        }
        p = p + 1;
    }
    assert(highlights_view(out@) + Seq::<(int, int, Seq<char>)>::empty() =~= highlights_view(out@));
    out
}

/// A result's date: its `created_at` metadata read as a signed number, or zero.
pub open spec fn date_key(r: SearchResult) -> int {
    match lookup(r.metadata@, "created_at"@) {
        Some(v) => match signed_value(v) {
            Some(n) => n,
            None => 0,
        },
        None => 0,
    }
}

/// A result's size: its `size` metadata read as an unsigned number, or zero.
pub open spec fn size_key(r: SearchResult) -> int {
    match lookup(r.metadata@, "size"@) {
        Some(v) => if parses_u64(v) {
            decimal_value(unsigned_digits(v)) as int
        } else {
            0
        },
        None => 0,
    }
}

/// Result `i` comes before result `j` in the order asked for: newest first, title in
/// code-point order, or largest first; equal keys, and relevance (which the caller ranks),
/// keep the given order.
pub open spec fn sorts_before(rs: Seq<SearchResult>, by: SortBy, i: int, j: int) -> bool {
    match by {
        SortBy::Date => date_key(rs[i]) > date_key(rs[j]) || (date_key(rs[i]) == date_key(rs[j]) && i < j),
        SortBy::Title => lex_lt(rs[i].title@, rs[j].title@) || (rs[i].title@ == rs[j].title@ && i < j),
        SortBy::Size => size_key(rs[i]) > size_key(rs[j]) || (size_key(rs[i]) == size_key(rs[j]) && i < j),
        SortBy::Relevance => i < j,
    }
}

proof fn lemma_sorts_order(rs: Seq<SearchResult>, by: SortBy, a: int, b: int, c: int)
    ensures
        a != b && !sorts_before(rs, by, a, b) ==> sorts_before(rs, by, b, a),
        sorts_before(rs, by, a, b) && sorts_before(rs, by, b, c) ==> sorts_before(rs, by, a, c),
{
    if let SortBy::Title = by {
        let (x, y, z) = (rs[a].title@, rs[b].title@, rs[c].title@);
        if x != y {
            lemma_lex_total(x, y);
        }
        if lex_lt(x, y) && lex_lt(y, z) {
            lemma_lex_transitive(x, y, z);
        }
    }
}

fn date_of(r: &SearchResult) -> (k: i64)
    ensures
        k as int == date_key(*r),
{
    match metadata_lookup(&r.metadata, "created_at") {
        Some(v) => match parse_i64(v.as_str()) {
            Some(n) => n,
            None => 0,
        },
        None => 0,
    }
}

fn size_of(r: &SearchResult) -> (k: u64)
    ensures
        k as int == size_key(*r),
{
    match metadata_lookup(&r.metadata, "size") {
        Some(v) => match parse_u64(v.as_str()) {
            Some(n) => n,
            None => 0,
        },
        None => 0,
    }
}

fn sorts_before_exec(rs: &Vec<SearchResult>, by: SortBy, i: usize, j: usize) -> (r: bool)
    requires
        i < rs.len(),
        j < rs.len(),
    ensures
        r == sorts_before(rs@, by, i as int, j as int),
{
    match by {
        SortBy::Date => {
            let (a, b) = (date_of(&rs[i]), date_of(&rs[j]));
            a > b || (a == b && i < j)
        },
        SortBy::Title => {
            let a = chars_of(rs[i].title.as_str());
            let b = chars_of(rs[j].title.as_str());
            lex_lt_exec(&a, &b) || (same_chars(&a, &b) && i < j)
        },
        SortBy::Size => {
            let (a, b) = (size_of(&rs[i]), size_of(&rs[j]));
            a > b || (a == b && i < j)
        },
        SortBy::Relevance => i < j,
    }
}

/// The order in which to list results: the positions of all of them, sorted as `sort_by` asks,
/// stably.
pub fn result_order(results: &Vec<SearchResult>, sort_by: SortBy) -> (r: Vec<usize>)
    ensures
        r.len() == results.len(),
        forall|i: int| 0 <= i < r.len() ==> #[trigger] r@[i] < results.len(),
        forall|i: int, j: int|
            0 <= i < j < r.len() ==> sorts_before(results@, sort_by, #[trigger] r@[i] as int, #[trigger] r@[j] as int),
{
    let mut out: Vec<usize> = Vec::new();
    let mut i: usize = 0;
    while i < results.len()
        invariant
            i <= results.len(),
            out.len() == i,
            forall|k: int| 0 <= k < out.len() ==> #[trigger] out@[k] < i,
            forall|a: int, b: int|
                0 <= a < b < out.len() ==> sorts_before(results@, sort_by, #[trigger] out@[a] as int, #[trigger] out@[b] as int),
        decreases results.len() - i,
    {
        let mut p: usize = 0;
        while p < out.len() && !sorts_before_exec(results, sort_by, i, out[p])
            invariant
                i < results.len(),
                p <= out.len(),
                forall|k: int| 0 <= k < out.len() ==> #[trigger] out@[k] < i,
                forall|q: int| 0 <= q < p ==> !sorts_before(results@, sort_by, i as int, #[trigger] out@[q] as int),
            decreases out.len() - p,
        {
            p = p + 1;
        }
        let ghost old_out = out@;
        out.insert(p, i);
        proof {
            assert forall|k: int| 0 <= k < out.len() implies #[trigger] out@[k] < i + 1 by {
                if k < p {
                    assert(out@[k] == old_out[k]);
                } else if k > p {
                    assert(out@[k] == old_out[k - 1]);
                }
            }
            assert forall|a: int, b: int|
                0 <= a < b < out.len() implies sorts_before(results@, sort_by, #[trigger] out@[a] as int, #[trigger] out@[b] as int) by {
                let x = out@[a] as int;
                let y = out@[b] as int;
                if a < p && b < p {
                    assert(x == old_out[a] && y == old_out[b]);
                } else if a < p && b == p {
                    assert(x == old_out[a] && y == i);
                    lemma_sorts_order(results@, sort_by, i as int, x, x);
                } else if a < p && b > p {
                    assert(x == old_out[a] && y == old_out[b - 1]);
                } else if a == p {
                    assert(x == i && y == old_out[b - 1]);
                    if b - 1 > p {
                        assert(sorts_before(results@, sort_by, old_out[p as int] as int, y));
                        lemma_sorts_order(results@, sort_by, i as int, old_out[p as int] as int, y);
                    }
                } else {
                    assert(x == old_out[a - 1] && y == old_out[b - 1]);
                }
            }
        }
        i = i + 1;
    }
    out
}

/// The page `[offset, offset + limit)` of a ranked list; no offset means the start, no limit
/// means the rest, and an offset past the end gives an empty page.
pub open spec fn page<T>(items: Seq<T>, offset: Option<usize>, limit: Option<usize>) -> Seq<T> {
    let n = items.len() as int;
    let start = match offset {
        Some(o) => min_int(o as int, n),
        None => 0,
    };
    let end = match limit {
        Some(l) => min_int(start + l, n),
        None => n,
    };
    items.subrange(start, end)
}

/// Cuts one page out of a ranked list.
pub fn paginate<T>(items: Vec<T>, offset: Option<usize>, limit: Option<usize>) -> (r: Vec<T>)
    ensures
        r@ == page(items@, offset, limit),
{
    let mut items = items;
    let n = items.len();
    let start = match offset {
        Some(o) => if o <= n { o } else { n },
        None => 0,
    };
    let end = match limit {
        Some(l) => if l <= n - start { start + l } else { n },
        None => n,
    };
    items.truncate(end);
    let rest = items.split_off(start);
    rest
}

} // verus!
