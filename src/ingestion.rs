use vstd::prelude::*;
use vstd::string::*;
use crate::search::{contains_token, str_eq};
use crate::text::{
    chars_of, lemma_word_spans_bounds, lower_of, spans_view, split_word_spans, string_of,
    strings_view, sub_chars, to_lower, word_spans,
};

verus! {

/// How ingestion treats files.
#[derive(Debug, Clone)]
pub struct IngestionConfig {
    pub max_file_size: u64,
    pub chunk_size: usize,
    pub chunk_overlap: usize,
    pub supported_extensions: Vec<String>,
    pub extract_entities: bool,
    pub extract_relationships: bool,
    pub ocr_enabled: bool,
}

/// The extensions ingested unless configured otherwise.
pub open spec fn default_extensions() -> Seq<Seq<char>> {
    seq!["txt"@, "md"@, "pdf"@, "docx"@, "html"@, "csv"@, "json"@, "xml"@, "rtf"@]
}

/// The largest file ingested by default: 100 MiB.
pub const DEFAULT_MAX_FILE_SIZE: u64 = 104857600;

impl Default for IngestionConfig {
    fn default() -> (r: IngestionConfig)
        ensures
            r.max_file_size == DEFAULT_MAX_FILE_SIZE,
            r.chunk_size == 1000,
            r.chunk_overlap == 200,
            strings_view(r.supported_extensions@) == default_extensions(),
            r.extract_entities,
            r.extract_relationships,
            !r.ocr_enabled,
    {
        let exts: Vec<String> = vec![
            String::from_str("txt"),
            String::from_str("md"),
            String::from_str("pdf"),
            String::from_str("docx"),
            String::from_str("html"),
            String::from_str("csv"),
            String::from_str("json"),
            String::from_str("xml"),
            String::from_str("rtf"),
        ];
        assert(strings_view(exts@) =~= default_extensions());
        IngestionConfig {
            max_file_size: DEFAULT_MAX_FILE_SIZE,
            chunk_size: 1000,
            chunk_overlap: 200,
            supported_extensions: exts,
            extract_entities: true,
            extract_relationships: true,
            ocr_enabled: false,
        }
    }
}

/// A window of a document's text.
#[derive(Debug, Clone)]
pub struct DocumentChunk {
    pub id: String,
    pub content: String,
    pub chunk_index: u32,
    pub start_position: u32,
    pub end_position: u32,
}

/// Why a file is not ingested.
#[derive(Debug, Clone, Copy, PartialEq, Eq, Structural)]
pub enum IngestionError {
    NotFound,
    NotAFile,
    TooLarge,
    UnsupportedType,
}

/// The last position at which `c` stands in `s`.
pub open spec fn last_index_of(s: Seq<char>, c: char) -> Option<int>
    decreases s.len(),
{
    if s.len() == 0 {
        None
    } else if s.last() == c {
        Some(s.len() - 1)
    } else {
        last_index_of(s.drop_last(), c)
    }
}

/// The file name of a path: what follows its last `/`.
pub open spec fn file_name_of(p: Seq<char>) -> Seq<char> {
    match last_index_of(p, '/') {
        Some(i) => p.subrange(i + 1, p.len() as int),
        None => p,
    }
}

/// The extension of a path: what follows the last `.` of its file name, when that dot is not
/// the name's first character.
pub open spec fn extension_of(p: Seq<char>) -> Option<Seq<char>> {
    let n = file_name_of(p);
    match last_index_of(n, '.') {
        Some(d) => if d > 0 {
            Some(n.subrange(d + 1, n.len() as int))
        } else {
            None
        },
        None => None,
    }
}

/// The last position in `s[lo..hi]` at which `c` stands.
fn last_index(s: &Vec<char>, lo: usize, hi: usize, c: char) -> (r: Option<usize>)
    requires
        lo <= hi <= s.len(),
    ensures
        r matches Some(i) ==> lo <= i < hi && last_index_of(s@.subrange(lo as int, hi as int), c) == Some(i - lo),
        r is None ==> last_index_of(s@.subrange(lo as int, hi as int), c) is None,
{
    let mut i: usize = hi;
    assert(s@.subrange(lo as int, hi as int) =~= s@.subrange(lo as int, hi as int).subrange(0, (hi - lo) as int));
    while i > lo && s[i - 1] != c
        invariant
            lo <= i <= hi <= s.len(),
            last_index_of(s@.subrange(lo as int, hi as int), c) == last_index_of(s@.subrange(lo as int, i as int), c),
        decreases i,
    {
        assert(s@.subrange(lo as int, i as int).drop_last() =~= s@.subrange(lo as int, i - 1));
        i = i - 1;
    }
    if i > lo {
        assert(s@.subrange(lo as int, i as int).last() == s@[i - 1]);
        Some(i - 1)
    } else {
        assert(s@.subrange(lo as int, i as int) =~= Seq::<char>::empty());
        None
    }
}

pub open spec fn opt_string_view(o: Option<String>) -> Option<Seq<char>> {
    match o {
        Some(s) => Some(s@),
        None => None,
    }
}

/// The stem of a path: its file name without the extension and its dot.
pub open spec fn file_stem_of(p: Seq<char>) -> Seq<char> {
    let n = file_name_of(p);
    match last_index_of(n, '.') {
        Some(d) => if d > 0 {
            n.subrange(0, d)
        } else {
            n
        },
        None => n,
    }
}

/// The stem of a path given as text.
pub fn file_stem(path: &str) -> (r: String)
    ensures
        r@ == file_stem_of(path@),
{
    let cs = chars_of(path);
    let n = cs.len();
    let start = match last_index(&cs, 0, n, '/') {
        Some(i) => i + 1,
        None => 0,
    };
    assert(cs@.subrange(0, n as int) =~= cs@);
    let ghost name = file_name_of(path@);
    assert(name =~= cs@.subrange(start as int, n as int));
    let end = match last_index(&cs, start, n, '.') {
        Some(d) => if d > start { d } else { n },
        None => n,
    };
    let stem = sub_chars(&cs, start, end);
    assert(stem@ =~= file_stem_of(path@));
    string_of(&stem)
}

/// The extension of a path given as text.
pub fn extension_of_path(path: &str) -> (r: Option<String>)
    ensures
        opt_string_view(r) == extension_of(path@),
{
    let cs = chars_of(path);
    let n = cs.len();
    let start = match last_index(&cs, 0, n, '/') {
        Some(i) => i + 1,
        None => 0,
    };
    assert(cs@.subrange(0, n as int) =~= cs@);
    let ghost name = file_name_of(path@);
    assert(name =~= cs@.subrange(start as int, n as int));
    match last_index(&cs, start, n, '.') {
        Some(d) => {
            if d > start {
                let e = sub_chars(&cs, d + 1, n);
                assert(e@ =~= name.subrange(d - start + 1, name.len() as int));
                Some(string_of(&e))
            } else {
                None
            }
        },
        None => None,
    }
}

/// Relies on `uuid::Uuid::new_v4`, written out with `to_string`: a fresh random identifier.
#[verifier::external_body]
pub(crate) fn new_uuid() -> (r: String) {
    uuid::Uuid::new_v4().to_string()
}

/// The MIME type that an extension names.
pub open spec fn mime_for(ext: Option<Seq<char>>) -> Seq<char> {
    match ext {
        Some(e) => if e == "txt"@ {
            "text/plain"@
        } else if e == "md"@ {
            "text/markdown"@
        } else if e == "pdf"@ {
            "application/pdf"@
        } else if e == "docx"@ {
            "application/vnd.openxmlformats-officedocument.wordprocessingml.document"@
        } else if e == "html"@ || e == "htm"@ {
            "text/html"@
        } else if e == "csv"@ {
            "text/csv"@
        } else if e == "json"@ {
            "application/json"@
        } else if e == "xml"@ {
            "application/xml"@
        } else if e == "rtf"@ {
            "application/rtf"@
        } else {
            "application/octet-stream"@
        },
        None => "application/octet-stream"@,
    }
}

/// Whether a MIME type names text: the `text/` family, JSON and XML.
pub open spec fn text_mime(m: Seq<char>) -> bool {
    (m.len() >= 5 && m.subrange(0, 5) == "text/"@) || m == "application/json"@ || m
        == "application/xml"@
}

pub open spec fn opt_view(e: Option<&str>) -> Option<Seq<char>> {
    match e {
        Some(s) => Some(s@),
        None => None,
    }
}

/// The MIME type for a file extension.
pub fn mime_type_for_extension(ext: Option<&str>) -> (r: String)
    ensures
        r@ == mime_for(opt_view(ext)),
{
    match ext {
        Some(e) => {
            if str_eq(e, "txt") {
                String::from_str("text/plain")
            } else if str_eq(e, "md") {
                String::from_str("text/markdown")
            } else if str_eq(e, "pdf") {
                String::from_str("application/pdf")
            } else if str_eq(e, "docx") {
                String::from_str(
                    "application/vnd.openxmlformats-officedocument.wordprocessingml.document",
                )
            } else if str_eq(e, "html") || str_eq(e, "htm") {
                String::from_str("text/html")
            } else if str_eq(e, "csv") {
                String::from_str("text/csv")
            } else if str_eq(e, "json") {
                String::from_str("application/json")
            } else if str_eq(e, "xml") {
                String::from_str("application/xml")
            } else if str_eq(e, "rtf") {
                String::from_str("application/rtf")
            } else {
                String::from_str("application/octet-stream")
            }
        },
        None => String::from_str("application/octet-stream"),
    }
}

/// Whether a MIME type names text.
pub fn is_text_mime(m: &str) -> (r: bool)
    ensures
        r == text_mime(m@),
{
    let cs = chars_of(m);
    let prefix = chars_of("text/");
    let mut starts = false;
    if cs.len() >= 5 {
        let head = sub_chars(&cs, 0, 5);
        starts = crate::text::same_chars(&head, &prefix);
    }
    starts || str_eq(m, "application/json") || str_eq(m, "application/xml")
}

/// File-type decisions made from a path's extension.
pub struct FileTypeDetector;

impl FileTypeDetector {
    /// The MIME type of a file, from its extension.
    pub fn detect_mime_type(file_path: &str) -> (r: String)
        ensures
            r@ == mime_for(extension_of(file_path@)),
    {
        let ext = extension_of_path(file_path);
        let r = match &ext {
            Some(e) => mime_type_for_extension(Some(e.as_str())),
            None => mime_type_for_extension(None),
        };
        proof {
            match ext {
                Some(e) => assert(r@ == mime_for(Some(e@))),
                None => assert(r@ == mime_for(None)),
            }
        }
        r
    }

    /// Whether the file's extension names a text type.
    pub fn is_text_file(file_path: &str) -> (r: bool)
        ensures
            r == text_mime(mime_for(extension_of(file_path@))),
    {
        let ext = extension_of_path(file_path);
        let m = match &ext {
            Some(e) => mime_type_for_extension(Some(e.as_str())),
            None => mime_type_for_extension(None),
        };
        let r = is_text_mime(m.as_str());
        proof {
            match ext {
                Some(x) => assert(r == text_mime(mime_for(Some(x@)))),
                None => assert(r == text_mime(mime_for(None))),
            }
        }
        r
    }

    /// Whether the file's extension names anything but a text type.
    pub fn is_binary_file(file_path: &str) -> (r: bool)
        ensures
            r == !text_mime(mime_for(extension_of(file_path@))),
    {
        !Self::is_text_file(file_path)
    }
}

/// Whether an extension, in lower case, is one of the configured ones.
pub fn is_supported_extension(config: &IngestionConfig, ext: &str) -> (r: bool)
    ensures
        r == strings_view(config.supported_extensions@).contains(lower_of(ext@)),
{
    let lower = to_lower(ext);
    contains_token(&config.supported_extensions, lower.as_str())
}

/// The verdict on a file from what the file system says of it: it must exist, be a regular
/// file, be at most `max_file_size` bytes long, and have a supported extension.
pub open spec fn validation(
    config: IngestionConfig,
    exists: bool,
    is_file: bool,
    size: u64,
    ext: Option<Seq<char>>,
) -> Result<(), IngestionError> {
    if !exists {
        Err(IngestionError::NotFound)
    } else if !is_file {
        Err(IngestionError::NotAFile)
    } else if size > config.max_file_size {
        Err(IngestionError::TooLarge)
    } else if !(ext matches Some(e) && strings_view(config.supported_extensions@).contains(lower_of(e))) {
        Err(IngestionError::UnsupportedType)
    } else {
        Ok(())
    }
}

/// Decides whether a file may be ingested.
pub fn validate_file(config: &IngestionConfig, exists: bool, is_file: bool, size: u64, ext: Option<&str>) -> (r: Result<(), IngestionError>)
    ensures
        r == validation(*config, exists, is_file, size, opt_view(ext)),
{
    if !exists {
        Err(IngestionError::NotFound)
    } else if !is_file {
        Err(IngestionError::NotAFile)
    } else if size > config.max_file_size {
        Err(IngestionError::TooLarge)
    } else {
        match ext {
            Some(e) => {
                if is_supported_extension(config, e) {
                    Ok(())
                } else {
                    Err(IngestionError::UnsupportedType)
                }
            },
            None => Err(IngestionError::UnsupportedType),
        }
    }
}

pub open spec fn min_i(a: int, b: int) -> int {
    if a <= b {
        a
    } else {
        b
    }
}

/// The word windows `[start, end)` of the chunker over `n` words, from word `start` on: each
/// holds up to `size` words, the last one may be shorter, and each next one starts `overlap`
/// words before the end of the previous one, but always after its start.
pub open spec fn windows_from(n: int, size: int, overlap: int, start: int) -> Seq<(int, int)>
    decreases n - start,
{
    if start < 0 || start >= n || size < 0 || overlap < 0 {
        seq![]
    } else {
        let end = min_i(start + size, n);
        if end == n {
            seq![(start, end)]
        } else {
            seq![(start, end)] + windows_from(
                n,
                size,
                overlap,
                if start + 1 >= end - overlap {
                    start + 1
                } else {
                    end - overlap
                },
            )
        }
    }
}

/// The character span in `text` of the words `[w.0, w.1)`.
pub open spec fn window_span(spans: Seq<(int, int)>, w: (int, int)) -> (int, int) {
    if w.1 > w.0 {
        (spans[w.0].0, spans[w.1 - 1].1)
    } else {
        (spans[w.0].0, spans[w.0].0)
    }
}

/// The chunks of `text`: the `k`-th covers the `k`-th word window, by its character span.
pub open spec fn chunk_is(c: DocumentChunk, text: Seq<char>, size: usize, overlap: usize, k: int) -> bool {
    let spans = word_spans(text);
    let w = windows_from(spans.len() as int, size as int, overlap as int, 0)[k];
    let sp = window_span(spans, w);
    &&& c.chunk_index == k
    &&& c.start_position == sp.0
    &&& c.end_position == sp.1
    &&& c.content@ == text.subrange(sp.0, sp.1)
}

proof fn lemma_windows_bounds(n: int, size: int, overlap: int, start: int)
    requires
        0 <= start,
        size >= 0,
        overlap >= 0,
    ensures
        forall|k: int|
            0 <= k < windows_from(n, size, overlap, start).len() ==> start <= #[trigger] windows_from(
                n,
                size,
                overlap,
                start,
            )[k].0 < n && windows_from(n, size, overlap, start)[k].0 <= windows_from(n, size, overlap, start)[k].1 <= n,
        windows_from(n, size, overlap, start).len() <= if n > start { n - start } else { 0 },
    decreases n - start,
{
    if start < n {
        let end = min_i(start + size, n);
        if end != n {
            let next = if start + 1 >= end - overlap {
                start + 1
            } else {
                end - overlap
            };
            lemma_windows_bounds(n, size, overlap, next);
            let rest = windows_from(n, size, overlap, next);
            let all = windows_from(n, size, overlap, start);
            assert(all == seq![(start, end)] + rest);
            assert forall|k: int| 0 <= k < all.len() implies start <= #[trigger] all[k].0 < n && all[k].0
                <= all[k].1 <= n by {
                if k > 0 {
                    assert(all[k] == rest[k - 1]);
                }
            }
        }
    }
}

/// Splits text into chunks of `chunk_size` words that overlap by `chunk_overlap` words; each
/// chunk carries its character span in the text and the text of that span.
pub fn create_chunks(content: &str, config: &IngestionConfig) -> (r: Vec<DocumentChunk>)
    requires
        content@.len() <= u32::MAX,
    ensures
        r.len() == windows_from(word_spans(content@).len() as int, config.chunk_size as int, config.chunk_overlap as int, 0).len(),
        forall|k: int| 0 <= k < r.len() ==> chunk_is(#[trigger] r@[k], content@, config.chunk_size, config.chunk_overlap, k),
{
    let cs = chars_of(content);
    let spans = split_word_spans(&cs);
    proof {
        lemma_word_spans_bounds(cs@);
        crate::text::lemma_word_spans_count(cs@);
    }
    let ghost sv = word_spans(cs@);
    let n = spans.len();
    let size = config.chunk_size;
    let overlap = config.chunk_overlap;
    let ghost all = windows_from(n as int, size as int, overlap as int, 0);
    proof {
        lemma_windows_bounds(n as int, size as int, overlap as int, 0);
    }
    let mut chunks: Vec<DocumentChunk> = Vec::new();
    let mut start: usize = 0;
    let mut done = n == 0;
    while !done
        invariant
            spans_view(spans@) == sv,
            sv == word_spans(cs@),
            cs@ == content@,
            cs@.len() <= u32::MAX,
            n == spans.len(),
            n <= cs@.len(),
            all == windows_from(n as int, size as int, overlap as int, 0),
            forall|j: int| 0 <= j < sv.len() ==> 0 <= #[trigger] sv[j].0 < sv[j].1 <= cs@.len(),
            forall|j: int, m: int| 0 <= j < m < sv.len() ==> #[trigger] sv[j].1 < #[trigger] sv[m].0,
            !done ==> start < n,
            !done ==> all == all.subrange(0, chunks.len() as int) + windows_from(
                n as int,
                size as int,
                overlap as int,
                start as int,
            ),
            done ==> chunks.len() == all.len(),
            chunks.len() <= all.len(),
            all.len() <= n,
            forall|k: int| 0 <= k < chunks.len() ==> chunk_is(#[trigger] chunks@[k], content@, size, overlap, k),
        decreases n - start + (if done { 0int } else { 1int }),
    {
        let end: usize = if size <= n - start { start + size } else { n };
        let ghost k = chunks.len() as int;
        let ghost rest = windows_from(n as int, size as int, overlap as int, start as int);
        proof {
            assert(rest[0] == (start as int, end as int));
            assert(all[k] == rest[0]);
        }
        let (a, b) = if end > start {
            (spans[start].0, spans[end - 1].1)
        } else {
            (spans[start].0, spans[start].0)
        };
        proof {
            assert(spans_view(spans@)[start as int] == (spans@[start as int].0 as int, spans@[start as int].1 as int));
            if end > start {
                assert(spans_view(spans@)[end - 1] == (spans@[end - 1].0 as int, spans@[end - 1].1 as int));
                if end - 1 > start {
                    assert(sv[start as int].1 < sv[end - 1].0);
                }
            }
        }
        let text = sub_chars(&cs, a, b);
        let chunk = DocumentChunk {
            id: new_uuid(),
            content: string_of(&text),
            chunk_index: chunks.len() as u32,
            start_position: a as u32,
            end_position: b as u32,
        };
        chunks.push(chunk);
        if end == n {
            done = true;
            proof {
                assert(rest == seq![(start as int, end as int)]);
            }
        } else {
            let back: usize = if end >= overlap { end - overlap } else { 0 };
            let next: usize = if start + 1 >= back { start + 1 } else { back };
            proof {
                assert(rest == seq![(start as int, end as int)] + windows_from(n as int, size as int, overlap as int, next as int));
            }
            start = next;
            if start >= n {
                done = true;
            }
        }
    }
    chunks
}

/// A rough page count: one page per 500 words, and at least one.
pub open spec fn page_estimate(text: Seq<char>) -> nat {
    let pages = word_spans(text).len() / 500;
    if pages >= 1 {
        pages
    } else {
        1
    }
}

fn estimate_pages(content: &str) -> (r: u32)
    requires
        content@.len() <= u32::MAX,
    ensures
        r == page_estimate(content@),
{
    let cs = chars_of(content);
    let spans = split_word_spans(&cs);
    assert(spans_view(spans@).len() == spans@.len());
    proof {
        crate::text::lemma_word_spans_count(cs@);
    }
    let pages = spans.len() / 500;
    if pages >= 1 {
        pages as u32
    } else {
        1
    }
}

/// Whether an extension is one that the decoder of plain text and lightweight markup reads.
pub open spec fn accepts_text(ext: Option<Seq<char>>) -> bool {
    ext matches Some(e) && text_extension(e)
}

pub open spec fn text_extension(e: Seq<char>) -> bool {
    e == "txt"@ || e == "md"@ || e == "markdown"@ || e == "rst"@
}

/// The decoder of plain text and lightweight markup.
pub struct TextProcessor;

impl TextProcessor {
    pub fn new() -> (r: TextProcessor) {
        TextProcessor
    }

    /// Whether this decoder reads files with the extension `ext`.
    pub fn handles_extension(ext: Option<&str>) -> (r: bool)
        ensures
            r == accepts_text(opt_view(ext)),
    {
        match ext {
            Some(e) => str_eq(e, "txt") || str_eq(e, "md") || str_eq(e, "markdown") || str_eq(e, "rst"),
            None => false,
        }
    }

    /// Whether this decoder reads the file, judged by its extension.
    pub fn can_process(&self, file_path: &str) -> (r: bool)
        ensures
            r == accepts_text(extension_of(file_path@)),
    {
        let ext = extension_of_path(file_path);
        let r = match &ext {
            Some(e) => Self::handles_extension(Some(e.as_str())),
            None => Self::handles_extension(None),
        };
        proof {
            match ext {
                Some(x) => assert(r == accepts_text(Some(x@))),
                None => assert(r == accepts_text(None)),
            }
        }
        r
    }
}

/// Whether an extension is one that the decoder of pdf documents reads.
pub open spec fn accepts_pdf(ext: Option<Seq<char>>) -> bool {
    ext matches Some(e) && pdf_extension(e)
}

pub open spec fn pdf_extension(e: Seq<char>) -> bool {
    e == "pdf"@
}

/// The decoder of pdf documents.
pub struct PdfProcessor;

impl PdfProcessor {
    pub fn new() -> (r: PdfProcessor) {
        PdfProcessor
    }

    /// Whether this decoder reads files with the extension `ext`.
    pub fn handles_extension(ext: Option<&str>) -> (r: bool)
        ensures
            r == accepts_pdf(opt_view(ext)),
    {
        match ext {
            Some(e) => str_eq(e, "pdf"),
            None => false,
        }
    }

    /// Whether this decoder reads the file, judged by its extension.
    pub fn can_process(&self, file_path: &str) -> (r: bool)
        ensures
            r == accepts_pdf(extension_of(file_path@)),
    {
        let ext = extension_of_path(file_path);
        let r = match &ext {
            Some(e) => Self::handles_extension(Some(e.as_str())),
            None => Self::handles_extension(None),
        };
        proof {
            match ext {
                Some(x) => assert(r == accepts_pdf(Some(x@))),
                None => assert(r == accepts_pdf(None)),
            }
        }
        r
    }

    /// A rough page count of extracted text: one page per 500 words, and at least one.
    pub fn estimate_page_count(content: &str) -> (r: u32)
        requires
            content@.len() <= u32::MAX,
        ensures
            r == page_estimate(content@),
    {
        estimate_pages(content)
    }
}

/// Whether an extension is one that the decoder of word documents reads.
pub open spec fn accepts_docx(ext: Option<Seq<char>>) -> bool {
    ext matches Some(e) && docx_extension(e)
}

pub open spec fn docx_extension(e: Seq<char>) -> bool {
    e == "docx"@
}

/// The decoder of word documents.
pub struct DocxProcessor;

impl DocxProcessor {
    pub fn new() -> (r: DocxProcessor) {
        DocxProcessor
    }

    /// Whether this decoder reads files with the extension `ext`.
    pub fn handles_extension(ext: Option<&str>) -> (r: bool)
        ensures
            r == accepts_docx(opt_view(ext)),
    {
        match ext {
            Some(e) => str_eq(e, "docx"),
            None => false,
        }
    }

    /// Whether this decoder reads the file, judged by its extension.
    pub fn can_process(&self, file_path: &str) -> (r: bool)
        ensures
            r == accepts_docx(extension_of(file_path@)),
    {
        let ext = extension_of_path(file_path);
        let r = match &ext {
            Some(e) => Self::handles_extension(Some(e.as_str())),
            None => Self::handles_extension(None),
        };
        proof {
            match ext {
                Some(x) => assert(r == accepts_docx(Some(x@))),
                None => assert(r == accepts_docx(None)),
            }
        }
        r
    }

    /// A rough page count of extracted text: one page per 500 words, and at least one.
    pub fn estimate_page_count(content: &str) -> (r: u32)
        requires
            content@.len() <= u32::MAX,
        ensures
            r == page_estimate(content@),
    {
        estimate_pages(content)
    }
}

/// Whether an extension is one that the decoder of html pages reads.
pub open spec fn accepts_html(ext: Option<Seq<char>>) -> bool {
    ext matches Some(e) && html_extension(e)
}

pub open spec fn html_extension(e: Seq<char>) -> bool {
    e == "html"@ || e == "htm"@
}

/// The decoder of html pages.
pub struct HtmlProcessor;

impl HtmlProcessor {
    pub fn new() -> (r: HtmlProcessor) {
        HtmlProcessor
    }

    /// Whether this decoder reads files with the extension `ext`.
    pub fn handles_extension(ext: Option<&str>) -> (r: bool)
        ensures
            r == accepts_html(opt_view(ext)),
    {
        match ext {
            Some(e) => str_eq(e, "html") || str_eq(e, "htm"),
            None => false,
        }
    }

    /// Whether this decoder reads the file, judged by its extension.
    pub fn can_process(&self, file_path: &str) -> (r: bool)
        ensures
            r == accepts_html(extension_of(file_path@)),
    {
        let ext = extension_of_path(file_path);
        let r = match &ext {
            Some(e) => Self::handles_extension(Some(e.as_str())),
            None => Self::handles_extension(None),
        };
        proof {
            match ext {
                Some(x) => assert(r == accepts_html(Some(x@))),
                None => assert(r == accepts_html(None)),
            }
        }
        r
    }
}

/// Whether an extension is one that the decoder of comma- and tab-separated tables reads.
pub open spec fn accepts_csv(ext: Option<Seq<char>>) -> bool {
    ext matches Some(e) && csv_extension(e)
}

pub open spec fn csv_extension(e: Seq<char>) -> bool {
    e == "csv"@ || e == "tsv"@
}

/// The decoder of comma- and tab-separated tables.
pub struct CsvProcessor;

impl CsvProcessor {
    pub fn new() -> (r: CsvProcessor) {
        CsvProcessor
    }

    /// Whether this decoder reads files with the extension `ext`.
    pub fn handles_extension(ext: Option<&str>) -> (r: bool)
        ensures
            r == accepts_csv(opt_view(ext)),
    {
        match ext {
            Some(e) => str_eq(e, "csv") || str_eq(e, "tsv"),
            None => false,
        }
    }

    /// Whether this decoder reads the file, judged by its extension.
    pub fn can_process(&self, file_path: &str) -> (r: bool)
        ensures
            r == accepts_csv(extension_of(file_path@)),
    {
        let ext = extension_of_path(file_path);
        let r = match &ext {
            Some(e) => Self::handles_extension(Some(e.as_str())),
            None => Self::handles_extension(None),
        };
        proof {
            match ext {
                Some(x) => assert(r == accepts_csv(Some(x@))),
                None => assert(r == accepts_csv(None)),
            }
        }
        r
    }
}

/// Whether an extension is one that the decoder of json documents reads.
pub open spec fn accepts_json(ext: Option<Seq<char>>) -> bool {
    ext matches Some(e) && json_extension(e)
}

pub open spec fn json_extension(e: Seq<char>) -> bool {
    e == "json"@
}

/// The decoder of json documents.
pub struct JsonProcessor;

impl JsonProcessor {
    pub fn new() -> (r: JsonProcessor) {
        JsonProcessor
    }

    /// Whether this decoder reads files with the extension `ext`.
    pub fn handles_extension(ext: Option<&str>) -> (r: bool)
        ensures
            r == accepts_json(opt_view(ext)),
    {
        match ext {
            Some(e) => str_eq(e, "json"),
            None => false,
        }
    }

    /// Whether this decoder reads the file, judged by its extension.
    pub fn can_process(&self, file_path: &str) -> (r: bool)
        ensures
            r == accepts_json(extension_of(file_path@)),
    {
        let ext = extension_of_path(file_path);
        let r = match &ext {
            Some(e) => Self::handles_extension(Some(e.as_str())),
            None => Self::handles_extension(None),
        };
        proof {
            match ext {
                Some(x) => assert(r == accepts_json(Some(x@))),
                None => assert(r == accepts_json(None)),
            }
        }
        r
    }
}

/// The decoders, in the order they are consulted.
#[derive(Debug, Clone, Copy, PartialEq, Eq, Structural)]
pub enum ProcessorKind {
    Text,
    Pdf,
    Docx,
    Html,
    Csv,
    Json,
}

/// The first decoder, in registration order, that claims the extension; none means the
/// format is unsupported.
pub open spec fn processor_for(ext: Option<Seq<char>>) -> Option<ProcessorKind> {
    if accepts_text(ext) {
        Some(ProcessorKind::Text)
    } else if accepts_pdf(ext) {
        Some(ProcessorKind::Pdf)
    } else if accepts_docx(ext) {
        Some(ProcessorKind::Docx)
    } else if accepts_html(ext) {
        Some(ProcessorKind::Html)
    } else if accepts_csv(ext) {
        Some(ProcessorKind::Csv)
    } else if accepts_json(ext) {
        Some(ProcessorKind::Json)
    } else {
        None
    }
}

/// The decoder for a file extension.
pub fn find_processor(ext: Option<&str>) -> (r: Option<ProcessorKind>)
    ensures
        r == processor_for(opt_view(ext)),
{
    if TextProcessor::handles_extension(ext) {
        Some(ProcessorKind::Text)
    } else if PdfProcessor::handles_extension(ext) {
        Some(ProcessorKind::Pdf)
    } else if DocxProcessor::handles_extension(ext) {
        Some(ProcessorKind::Docx)
    } else if HtmlProcessor::handles_extension(ext) {
        Some(ProcessorKind::Html)
    } else if CsvProcessor::handles_extension(ext) {
        Some(ProcessorKind::Csv)
    } else if JsonProcessor::handles_extension(ext) {
        Some(ProcessorKind::Json)
    } else {
        None
    }
}

} // verus!
